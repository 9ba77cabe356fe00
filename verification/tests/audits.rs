use npm_utils::audit::npm::{
    bulk_request_body, bulk_request_bytes, ghsa_from_url, parse_npm_bulk, NpmRegistrySource,
};
use npm_utils::audit::osv::{
    collect_advisories, ids_to_fetch, osv_range_string, parse_osv_vuln, querybatch_body,
    record_url, wanted_records, OsvSource,
};
use npm_utils::audit::{
    build_report, dedup_advisories, render_json, render_summary, run_audit, severity_from_cvss,
    Advisory, AdvisorySource, AuditReport, Severity, Vulnerabilities,
};
use npm_utils::cli::{build_sources, AuditLevel, SourceKind};
use npm_utils::json::Json;
use npm_utils::sbom::Component;

fn json(text: &str) -> Json {
    Json::parse(text).unwrap()
}

fn advisory(
    source: &'static str,
    id: &str,
    aliases: &[&str],
    range: &str,
    sev: Option<Severity>,
) -> Advisory {
    Advisory {
        source,
        id: id.into(),
        aliases: aliases.iter().map(|s| s.to_string()).collect(),
        package: "lodash".into(),
        vulnerable_range: range.into(),
        severity: sev,
        title: format!("advisory {id}"),
        url: None,
        cwe: vec![],
        cvss_score: None,
        cvss_vector: None,
        matched_version: String::new(),
    }
}

fn component(name: &str, version: &str) -> Component {
    Component {
        name: name.into(),
        version: version.into(),
        purl: format!("pkg:npm/{name}@{version}"),
        license: None,
        resolved: None,
        integrity: None,
    }
}

fn bucket(score: f64) -> Option<Severity> {
    severity_from_cvss(score.to_bits())
}

#[test]
fn severity_buckets_from_cvss() {
    assert_eq!(bucket(0.0), None);
    assert_eq!(bucket(3.9), Some(Severity::Low));
    assert_eq!(bucket(6.9), Some(Severity::Moderate));
    assert_eq!(bucket(7.2), Some(Severity::High));
    assert_eq!(bucket(9.8), Some(Severity::Critical));
    assert!(Severity::Low < Severity::Critical);
    assert_eq!(
        Severity::from_str_loose("CRITICAL"),
        Some(Severity::Critical)
    );
    assert_eq!(Severity::from_str_loose("medium"), Some(Severity::Moderate));
    assert_eq!(Severity::from_str_loose("info"), None);
}

#[test]
fn severity_buckets_change_at_their_bounds() {
    assert_eq!(bucket(0.1), Some(Severity::Low));
    assert_eq!(bucket(-1.0), None);
    assert_eq!(bucket(4.0), Some(Severity::Moderate));
    assert_eq!(bucket(f64::from_bits(4.0f64.to_bits() - 1)), Some(Severity::Low));
    assert_eq!(bucket(7.0), Some(Severity::High));
    assert_eq!(bucket(9.0), Some(Severity::Critical));
    assert_eq!(bucket(f64::from_bits(9.0f64.to_bits() - 1)), Some(Severity::High));
    assert_eq!(bucket(10.0), Some(Severity::Critical));
}

#[test]
fn severities_have_words_and_ranks() {
    for s in [
        Severity::Low,
        Severity::Moderate,
        Severity::High,
        Severity::Critical,
    ] {
        assert_eq!(Severity::from_str_loose(&format!(" {} ", s.as_str())), Some(s));
    }
    assert!(Severity::Low.rank() < Severity::Moderate.rank());
    assert!(Severity::High.rank() < Severity::Critical.rank());
    assert_eq!(Severity::from(AuditLevel::Moderate), Severity::Moderate);
    assert_eq!(Severity::from(AuditLevel::Low), Severity::Low);
    assert_eq!(Severity::from(AuditLevel::High), Severity::High);
    assert_eq!(Severity::from(AuditLevel::Critical), Severity::Critical);
}

#[test]
fn dedup_joins_on_shared_alias_and_enriches() {
    let npm = advisory(
        "npm",
        "GHSA-aaaa-bbbb-cccc",
        &["GHSA-aaaa-bbbb-cccc"],
        "<2.0.0",
        Some(Severity::High),
    );
    let mut osv = advisory(
        "osv",
        "GHSA-aaaa-bbbb-cccc",
        &["GHSA-aaaa-bbbb-cccc", "CVE-2021-1"],
        "<2.0.0",
        Some(Severity::High),
    );
    osv.url = Some("https://osv.dev/x".into());
    osv.cwe = vec!["CWE-79".into()];

    let out = dedup_advisories(vec![npm, osv]);
    assert_eq!(out.len(), 1, "the two sources collapse to one advisory");
    assert_eq!(out[0].source, "npm", "first occurrence wins");
    assert!(
        out[0].aliases.iter().any(|a| a == "CVE-2021-1"),
        "CVE alias merged in from osv"
    );
    assert_eq!(
        out[0].url.as_deref(),
        Some("https://osv.dev/x"),
        "url enriched"
    );
    assert_eq!(out[0].cwe, vec!["CWE-79"], "cwe enriched");

    let a = advisory("npm", "GHSA-1", &["CVE-1"], "<2.0.0", Some(Severity::Low));
    let b = advisory("osv", "GHSA-2", &["CVE-2"], "<2.0.0", Some(Severity::Low));
    assert_eq!(dedup_advisories(vec![a, b]).len(), 2);
}

#[test]
fn dedup_keeps_packages_apart_and_loses_no_id() {
    let a = advisory("npm", "GHSA-1", &["CVE-1"], "<2.0.0", None);
    let mut b = advisory("osv", "GHSA-1", &["CVE-1"], "<2.0.0", Some(Severity::Low));
    b.package = "underscore".into();
    assert_eq!(dedup_advisories(vec![a, b]).len(), 2);

    let a = advisory("npm", "GHSA-1", &["CVE-1"], "<2.0.0", None);
    let b = advisory("osv", "GHSA-2", &["CVE-1", "CVE-9"], "<2.0.0", Some(Severity::High));
    let out = dedup_advisories(vec![a, b]);
    assert_eq!(out.len(), 1);
    assert_eq!(out[0].id, "GHSA-1");
    assert_eq!(out[0].severity, Some(Severity::High));
    for id in ["CVE-1", "CVE-9", "GHSA-2"] {
        assert!(out[0].aliases.iter().any(|x| x == id), "{id} is lost");
    }
}

#[test]
fn build_report_keeps_only_in_range_installs_and_counts() {
    let advisories = vec![
        advisory(
            "npm",
            "GHSA-old",
            &["GHSA-old"],
            "<4.17.21",
            Some(Severity::High),
        ),
        advisory(
            "npm",
            "GHSA-wide",
            &["GHSA-wide"],
            "<=4.17.23",
            Some(Severity::Moderate),
        ),
    ];
    let r = build_report(&advisories, &[component("lodash", "4.17.20")]);
    assert_eq!(r.vulnerabilities.total, 2);
    assert_eq!(r.vulnerabilities.high, 1);
    assert_eq!(r.vulnerabilities.moderate, 1);
    assert_eq!(r.findings[0].advisories[0].matched_version, "4.17.20");

    let r = build_report(&advisories, &[component("lodash", "4.17.22")]);
    assert_eq!(r.vulnerabilities.total, 1);
    assert!(r.findings[0].advisories.iter().all(|a| a.id == "GHSA-wide"));

    assert_eq!(
        build_report(&advisories, &[component("left-pad", "1.3.0")])
            .vulnerabilities
            .total,
        0
    );
    assert_eq!(
        build_report(&advisories, &[component("lodash", "not-semver")])
            .vulnerabilities
            .total,
        0
    );
}

#[test]
fn build_report_dedups_same_name_version_across_tree_paths() {
    let advisories = vec![advisory(
        "npm",
        "GHSA-x",
        &["GHSA-x"],
        "<2.0.0",
        Some(Severity::Low),
    )];
    let r = build_report(
        &advisories,
        &[component("lodash", "1.0.0"), component("lodash", "1.0.0")],
    );
    assert_eq!(r.vulnerabilities.total, 1);
    assert_eq!(r.findings.len(), 1);
}

#[test]
fn findings_come_by_name_and_then_version() {
    let for_package = |package: &str| {
        let mut a = advisory("npm", package, &[], "*", Some(Severity::Low));
        a.package = package.to_string();
        a
    };
    let advisories = vec![for_package("b"), for_package("a")];
    let r = build_report(
        &advisories,
        &[
            component("b", "1.0.0"),
            component("a", "2.0.0"),
            component("a", "1.0.0"),
        ],
    );
    let found: Vec<String> = r
        .findings
        .iter()
        .map(|f| format!("{}@{}", f.component.name, f.component.version))
        .collect();
    assert_eq!(found, ["a@1.0.0", "a@2.0.0", "b@1.0.0"]);
    assert_eq!(r.vulnerabilities.low, 3);
}

#[test]
fn an_advisory_joins_all_that_share_an_id_with_it() {
    let out = dedup_advisories(vec![
        advisory("npm", "GHSA-1", &[], "*", None),
        advisory("npm", "GHSA-7", &[], "*", None),
        advisory("osv", "CVE-2", &["CVE-3"], "*", Some(Severity::High)),
        advisory("osv", "GHSA-1", &["CVE-2"], "*", Some(Severity::Low)),
    ]);
    let ids: Vec<&str> = out.iter().map(|a| a.id.as_str()).collect();
    assert_eq!(ids, ["GHSA-1", "GHSA-7"]);
    assert_eq!(out[0].aliases, ["CVE-2", "CVE-3"]);
    assert_eq!(out[0].severity, Some(Severity::High));
    assert_eq!(out[0].source, "npm");
}

#[test]
fn exceeds_respects_threshold_and_renders() {
    let advisories = vec![advisory(
        "npm",
        "GHSA-h",
        &["GHSA-h"],
        "<2.0.0",
        Some(Severity::High),
    )];
    let report = build_report(&advisories, &[component("lodash", "1.0.0")]);
    assert!(report.exceeds(Severity::Low));
    assert!(report.exceeds(Severity::High));
    assert!(!report.exceeds(Severity::Critical));
    assert_eq!(report.max_severity(), Some(Severity::High));

    assert!(render_summary(&report).contains("found 1 vulnerability"));
    assert!(render_summary(&report).contains("lodash@1.0.0"));
    let empty = AuditReport {
        findings: vec![],
        vulnerabilities: Vulnerabilities::default(),
    };
    assert_eq!(render_summary(&empty), "found 0 vulnerabilities\n");

    let doc: serde_json::Value = serde_json::from_str(&render_json(&report)).unwrap();
    assert_eq!(doc["vulnerabilities"]["lodash"]["severity"], "high");
    assert_eq!(doc["metadata"]["vulnerabilities"]["high"], 1);
    assert_eq!(doc["metadata"]["vulnerabilities"]["total"], 1);
}

#[test]
fn an_advisory_without_severity_counts_as_info() {
    let advisories = vec![advisory("npm", "GHSA-i", &[], "*", None)];
    let report = build_report(&advisories, &[component("lodash", "1.0.0")]);
    assert_eq!(report.vulnerabilities.info, 1);
    assert_eq!(report.vulnerabilities.total, 1);
    assert_eq!(report.max_severity(), None);
    assert!(!report.exceeds(Severity::Low));
}

#[test]
fn ghsa_parsed_from_advisory_url() {
    assert_eq!(
        ghsa_from_url("https://github.com/advisories/GHSA-35jh-r3h4-6jhm").as_deref(),
        Some("GHSA-35jh-r3h4-6jhm")
    );
    assert_eq!(
        ghsa_from_url("https://github.com/advisories/GHSA-35jh-r3h4-6jhm?ref=x").as_deref(),
        Some("GHSA-35jh-r3h4-6jhm")
    );
    assert_eq!(ghsa_from_url("https://example.com/whatever"), None);
}

#[test]
fn bulk_request_body_groups_versions_per_name() {
    let comps = [
        component("lodash", "4.17.20"),
        component("lodash", "4.17.21"),
        component("ms", "2.0.0"),
    ];
    let body = bulk_request_body(&comps);
    assert_eq!(body.get("lodash").unwrap(), &json(r#"["4.17.20","4.17.21"]"#));
    assert_eq!(body.get("ms").unwrap(), &json(r#"["2.0.0"]"#));
}

#[test]
fn a_bulk_request_is_gzipped_json() {
    let comps = [component("ms", "2.0.0")];
    let bytes = bulk_request_bytes(&comps).unwrap();
    let mut text = String::new();
    std::io::Read::read_to_string(
        &mut flate2::read::GzDecoder::new(bytes.as_slice()),
        &mut text,
    )
    .unwrap();
    assert_eq!(text, r#"{"ms":["2.0.0"]}"#);
    assert_eq!(
        NpmRegistrySource::new("https://registry.npmjs.org/").bulk_url(),
        "https://registry.npmjs.org/-/npm/v1/security/advisories/bulk"
    );
}

#[test]
fn nothing_is_asked_without_components() {
    let npm = NpmRegistrySource::new("https://registry.npmjs.org");
    assert!(npm.request(&[]).is_none());
    assert!(OsvSource.request(&[]).is_none());
    let comps = [component("ms", "2.0.0")];
    let (url, body) = npm.request(&comps).unwrap();
    assert_eq!(url, npm.bulk_url());
    assert_eq!(body, bulk_request_bytes(&comps));
    assert_eq!(
        OsvSource.request(&comps).unwrap(),
        r#"{"queries":[{"package":{"name":"ms","ecosystem":"npm"},"version":"2.0.0"}]}"#
    );
    assert!(npm.answer(None).is_empty());
    let answer = json(r#"{"ms":[{"id":7,"vulnerable_versions":"*"}]}"#);
    assert_eq!(npm.answer(Some(&answer)).len(), 1);
}

#[test]
fn parse_npm_bulk_reads_fields_and_severity() {
    let body = json(
        r#"{
        "lodash": [{
            "id": 1106913,
            "url": "https://github.com/advisories/GHSA-35jh-r3h4-6jhm",
            "title": "Command Injection in lodash",
            "severity": "high",
            "vulnerable_versions": "<4.17.21",
            "cwe": ["CWE-77", "CWE-94"],
            "cvss": { "score": 7.2, "vectorString": "CVSS:3.1/AV:N/AC:L/PR:H/UI:N/S:U/C:H/I:H/A:H" }
        }]
    }"#,
    );
    let advisories = parse_npm_bulk(&body);
    assert_eq!(advisories.len(), 1);
    let a = &advisories[0];
    assert_eq!(a.source, "npm");
    assert_eq!(a.id, "GHSA-35jh-r3h4-6jhm");
    assert_eq!(a.aliases, vec!["GHSA-35jh-r3h4-6jhm"]);
    assert_eq!(a.package, "lodash");
    assert_eq!(a.vulnerable_range, "<4.17.21");
    assert_eq!(a.severity, Some(Severity::High));
    assert_eq!(a.cwe, vec!["CWE-77", "CWE-94"]);
    let score = a.cvss_score.as_ref().unwrap();
    assert_eq!(f64::from_bits(score.bits), 7.2);
    assert_eq!(score.notation, "7.2");
    assert!(a.cvss_vector.is_some());
}

#[test]
fn parse_npm_bulk_falls_back_to_cvss_for_severity() {
    let body = json(
        r#"{ "x": [{
        "id": 1, "url": "https://example.com/x", "title": "t",
        "vulnerable_versions": "<1.0.0", "cvss": { "score": 9.5 }
    }]}"#,
    );
    let a = &parse_npm_bulk(&body)[0];
    assert_eq!(a.severity, Some(Severity::Critical));
    assert_eq!(a.id, "1");
}

#[test]
fn osv_range_from_simple_introduced_zero_fixed() {
    let entry = json(
        r#"{
        "package": { "name": "lodash", "ecosystem": "npm" },
        "ranges": [{ "type": "SEMVER", "events": [{ "introduced": "0" }, { "fixed": "4.17.12" }] }]
    }"#,
    );
    assert_eq!(osv_range_string(&entry).as_deref(), Some("<4.17.12"));
}

#[test]
fn osv_range_from_bounded_and_multi_interval() {
    let bounded = json(
        r#"{ "ranges": [{ "type": "SEMVER",
        "events": [{ "introduced": "1.0.0" }, { "fixed": "1.5.0" }] }] }"#,
    );
    assert_eq!(
        osv_range_string(&bounded).as_deref(),
        Some(">=1.0.0 <1.5.0")
    );

    let multi = json(
        r#"{ "ranges": [{ "type": "SEMVER", "events": [
        { "introduced": "1.0.0" }, { "fixed": "1.2.0" },
        { "introduced": "2.0.0" }, { "fixed": "2.2.0" }
    ] }] }"#,
    );
    assert_eq!(
        osv_range_string(&multi).as_deref(),
        Some(">=1.0.0 <1.2.0 || >=2.0.0 <2.2.0")
    );

    let open = json(r#"{ "ranges": [{ "type": "SEMVER", "events": [{ "introduced": "3.0.0" }] }] }"#);
    assert_eq!(osv_range_string(&open).as_deref(), Some(">=3.0.0"));
}

const OSV_RECORD: &str = r#"{
    "id": "GHSA-jf85-cpcp-j695",
    "summary": "Prototype Pollution in lodash",
    "aliases": ["CVE-2019-10744"],
    "database_specific": { "severity": "CRITICAL", "cwe_ids": ["CWE-1321", "CWE-20"] },
    "references": [{ "type": "ADVISORY", "url": "https://nvd.nist.gov/vuln/detail/CVE-2019-10744" }],
    "affected": [
        { "package": { "name": "lodash", "ecosystem": "npm" },
          "ranges": [{ "type": "SEMVER", "events": [{ "introduced": "0" }, { "fixed": "4.17.12" }] }] },
        { "package": { "name": "lodash-rails", "ecosystem": "RubyGems" },
          "ranges": [{ "type": "ECOSYSTEM", "events": [{ "introduced": "0" }, { "fixed": "4.17.12" }] }] }
    ]
}"#;

#[test]
fn parse_osv_vuln_matches_npm_package_only() {
    let record = json(OSV_RECORD);
    let adv = parse_osv_vuln(&record, "lodash").expect("npm lodash affected");
    assert_eq!(adv.source, "osv");
    assert_eq!(adv.id, "GHSA-jf85-cpcp-j695");
    assert_eq!(adv.aliases, vec!["CVE-2019-10744"]);
    assert_eq!(adv.severity, Some(Severity::Critical));
    assert_eq!(adv.vulnerable_range, "<4.17.12");
    assert_eq!(adv.cwe, vec!["CWE-1321", "CWE-20"]);
    assert_eq!(
        adv.url.as_deref(),
        Some("https://nvd.nist.gov/vuln/detail/CVE-2019-10744")
    );

    assert!(parse_osv_vuln(&record, "lodash-rails").is_none());
    assert!(parse_osv_vuln(&record, "express").is_none());
}

#[test]
fn osv_queries_and_records_are_matched_by_place() {
    let comps = [component("lodash", "4.17.0"), component("ms", "2.0.0")];
    let body = querybatch_body(&comps);
    let queries = body.items("queries").unwrap();
    assert_eq!(queries.len(), 2);
    assert_eq!(
        queries[0].get("package").unwrap().text("name"),
        Some("lodash")
    );
    assert_eq!(queries[0].text("version"), Some("4.17.0"));

    let answer = json(
        r#"{"results":[{"vulns":[{"id":"GHSA-jf85-cpcp-j695"},{"id":"GHSA-x"}]},
            {"vulns":[{"id":"GHSA-x"}]}]}"#,
    );
    let wanted = wanted_records(&answer, &comps);
    assert_eq!(wanted.len(), 3);
    let ids = ids_to_fetch(&wanted);
    assert_eq!(ids.iter().filter(|id| *id == "GHSA-x").count(), 1);
    assert_eq!(ids.len(), 2);
    assert!(record_url("GHSA-x").ends_with("/GHSA-x"));

    let records = vec![("GHSA-jf85-cpcp-j695".to_string(), json(OSV_RECORD))];
    let found = collect_advisories(&wanted, &records);
    assert_eq!(found.len(), 1);
    assert_eq!(found[0].package, "lodash");
}

struct Fixed {
    label: &'static str,
    answer: Result<Vec<Advisory>, String>,
}

impl AdvisorySource for Fixed {
    fn name(&self) -> &'static str {
        self.label
    }

    fn query(&self, components: &[Component]) -> Result<Vec<Advisory>, String> {
        assert_eq!(components.len(), 1);
        match &self.answer {
            Ok(list) => Ok(list.iter().map(|a| a.copy()).collect()),
            Err(e) => Err(e.clone()),
        }
    }
}

#[test]
fn an_audit_asks_every_source_and_survives_failures() {
    let a = advisory("npm", "GHSA-1", &["CVE-1"], "<2.0.0", Some(Severity::Low));
    let b = advisory("osv", "OSV-1", &["CVE-1"], "<2.0.0", Some(Severity::Low));
    let sources: Vec<Box<dyn AdvisorySource>> = vec![
        Box::new(Fixed {
            label: "npm",
            answer: Ok(vec![a]),
        }),
        Box::new(Fixed {
            label: "down",
            answer: Err("unreachable".to_string()),
        }),
        Box::new(Fixed {
            label: "osv",
            answer: Ok(vec![b]),
        }),
    ];
    let (report, failures) = run_audit(&[component("lodash", "1.0.0")], &sources);
    assert_eq!(report.vulnerabilities.total, 1, "the same advisory counts once");
    assert_eq!(report.findings[0].advisories[0].source, "npm");
    assert_eq!(
        failures,
        vec![("down".to_string(), "unreachable".to_string())]
    );
}

#[test]
fn both_sources_are_asked_unless_some_are_named() {
    assert_eq!(build_sources(None), vec![SourceKind::Npm, SourceKind::Osv]);
    assert_eq!(
        build_sources(Some(&[])),
        vec![SourceKind::Npm, SourceKind::Osv]
    );
    assert_eq!(
        build_sources(Some(&[SourceKind::Osv])),
        vec![SourceKind::Osv]
    );
}
