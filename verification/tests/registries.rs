use npm_utils::cache::{
    file_hash, is_not_empty_error, lock_is_stale, marker_matches, with_lock, ClearRetry,
    LockAction, LockEvent,
};
use npm_utils::download::{
    after_try, fetch, github_archive_url, FetchStep, TimeoutSetting, Timeouts,
};
use npm_utils::json::{Json, Number};
use npm_utils::package_json::lock::Lockfile;
use npm_utils::package_json::spec::Range;
use npm_utils::registry::{license_of, select_version, Registry, ResolveError};
use npm_utils::sbom::{
    components, license_summary, now_rfc3339, render_summary, rfc3339_at, sri_to_sha512_hex,
    to_cyclonedx, to_spdx, Component,
};
use npm_utils::tree::{TreeStep, TreeWalk};

fn json(text: &str) -> Json {
    Json::parse(text).unwrap()
}

fn range(text: &str) -> Range {
    Range::parse(text).unwrap()
}

#[test]
fn tarball_url_handles_scoped_and_unscoped() {
    let reg = Registry::npm();
    assert_eq!(
        reg.tarball_url("lit", "3.3.3"),
        "https://registry.npmjs.org/lit/-/lit-3.3.3.tgz"
    );
    assert_eq!(
        reg.tarball_url("@lit/context", "1.1.6"),
        "https://registry.npmjs.org/@lit/context/-/context-1.1.6.tgz"
    );
}

#[test]
fn packument_urls_encode_the_scope() {
    let reg = Registry::with_base_url("https://r");
    assert_eq!(reg.packument_url("lit"), "https://r/lit");
    assert_eq!(reg.packument_url("@lit/context"), "https://r/@lit%2fcontext");
    assert_eq!(Registry::default().base_url, "https://registry.npmjs.org");
    assert_eq!(reg.packument(b"{\"a\":1}").unwrap(), json(r#"{"a":1}"#));
    assert!(reg.packument(b"\xff").is_err());
}

#[test]
fn select_version_picks_newest_matching() {
    let doc = json(
        r#"{
        "versions": {
            "3.1.0": { "dist": { "tarball": "https://r/lit-3.1.0.tgz" } },
            "3.3.3": {
                "license": "BSD-3-Clause",
                "dist": {
                    "tarball": "https://r/lit-3.3.3.tgz",
                    "integrity": "sha512-deadbeef"
                }
            },
            "4.0.0": { "dist": { "tarball": "https://r/lit-4.0.0.tgz" } },
            "2.9.9": {}
        }
    }"#,
    );
    let (ver, tarball, integrity, license) = select_version(&doc, &range("^3")).unwrap();
    assert_eq!(ver.to_string(), "3.3.3");
    assert_eq!(tarball.as_deref(), Some("https://r/lit-3.3.3.tgz"));
    assert_eq!(integrity.as_deref(), Some("sha512-deadbeef"));
    assert_eq!(license.as_deref(), Some("BSD-3-Clause"));
}

#[test]
fn select_version_integrity_is_none_when_absent() {
    let doc = json(
        r#"{ "versions": {
        "1.0.0": { "dist": { "tarball": "https://r/x-1.0.0.tgz" } }
    }}"#,
    );
    let (_, tarball, integrity, _license) = select_version(&doc, &range("^1")).unwrap();
    assert_eq!(tarball.as_deref(), Some("https://r/x-1.0.0.tgz"));
    assert!(integrity.is_none());
}

#[test]
fn select_version_none_when_no_match() {
    let doc = json(r#"{ "versions": { "1.0.0": {}, "2.0.0": {} } }"#);
    assert!(select_version(&doc, &range("^5")).is_none());
}

#[test]
fn select_version_passes_over_what_is_no_version() {
    let doc = json(r#"{ "versions": { "nonsense": {}, "1.10.0": {}, "1.9.0": {}, "1.11.0-rc.1": {} } }"#);
    let (ver, tarball, _, _) = select_version(&doc, &range("^1")).unwrap();
    assert_eq!(ver.to_string(), "1.10.0");
    assert_eq!(tarball, None);
}

#[test]
fn license_of_normalizes_string_object_and_array_forms() {
    assert_eq!(
        license_of(&json(r#"{ "license": "MIT" }"#)).as_deref(),
        Some("MIT")
    );
    assert_eq!(
        license_of(&json(
            r#"{ "license": { "type": "Apache-2.0", "url": "x" } }"#
        ))
        .as_deref(),
        Some("Apache-2.0")
    );
    assert_eq!(
        license_of(&json(
            r#"{ "licenses": [{ "type": "MIT" }, { "type": "Apache-2.0" }] }"#
        ))
        .as_deref(),
        Some("MIT OR Apache-2.0")
    );
    assert_eq!(license_of(&json(r#"{ "dist": {} }"#)), None);
}

fn packument_with(version: &str, deps: &[(&str, &str)]) -> Json {
    let deps: Vec<String> = deps.iter().map(|(n, s)| format!(r#""{n}":"{s}""#)).collect();
    json(&format!(
        r#"{{"versions":{{"{version}":{{
            "dist":{{"tarball":"https://r/{version}.tgz","integrity":"sha512-{version}"}},
            "dependencies":{{{}}}
        }}}}}}"#,
        deps.join(",")
    ))
}

fn table(packages: Vec<(&str, Json)>) -> Vec<(String, Json)> {
    packages
        .into_iter()
        .map(|(n, d)| (n.to_string(), d))
        .collect()
}

#[test]
fn resolve_tree_walks_transitively_dedups_and_handles_cycles() {
    let pkgs = table(vec![
        (
            "a",
            packument_with("1.0.0", &[("b", "^1"), ("c", "^1")]),
        ),
        ("b", packument_with("1.2.0", &[("c", "^1")])),
        ("c", packument_with("1.5.0", &[("a", "^1")])),
    ]);
    let roots = vec![("a".to_string(), range("^1"))];
    let resolved = Registry::npm().resolve_tree_from(&roots, &pkgs).unwrap();
    let names: Vec<&str> = resolved.iter().map(|r| r.name.as_str()).collect();
    assert_eq!(names, ["a", "b", "c"]);
    let of = |n: &str| resolved.iter().find(|r| r.name == n).unwrap();
    assert_eq!(of("b").version.to_string(), "1.2.0");
    assert_eq!(of("c").version.to_string(), "1.5.0");
    assert_eq!(of("b").integrity.as_deref(), Some("sha512-1.2.0"));
}

#[test]
fn resolve_tree_resolves_a_transitive_or_range() {
    let pkgs = table(vec![
        ("ctx", packument_with("1.1.6", &[("re", "^1.6.2 || ^2.1.0")])),
        ("re", packument_with("2.1.0", &[])),
    ]);
    let roots = vec![("ctx".to_string(), range("^1"))];
    let resolved = Registry::npm().resolve_tree_from(&roots, &pkgs).unwrap();
    let names: Vec<&str> = resolved.iter().map(|r| r.name.as_str()).collect();
    assert_eq!(
        names,
        ["ctx", "re"],
        "the `||`-ranged transitive dep resolved"
    );
    assert_eq!(resolved[1].version.to_string(), "2.1.0");
}

#[test]
fn resolve_tree_errors_on_version_conflict() {
    let pkgs = table(vec![
        (
            "x",
            json(
                r#"{ "versions": {
                "1.0.0": { "dist": { "tarball": "https://r/x1.tgz" } },
                "2.0.0": { "dist": { "tarball": "https://r/x2.tgz" } }
            }}"#,
            ),
        ),
        ("y", packument_with("1.0.0", &[("x", "^2")])),
    ]);
    let roots = vec![
        ("x".to_string(), range("^1")),
        ("y".to_string(), range("^1")),
    ];
    let err = Registry::npm().resolve_tree_from(&roots, &pkgs).unwrap_err();
    assert!(
        err.message().contains("version conflict"),
        "got: {}",
        err.message()
    );
}

#[test]
fn tree_errors_say_which_package_is_at_fault() {
    let reg = Registry::npm();
    let roots = vec![("a".to_string(), range("^1"))];
    let none = reg.resolve_tree_from(&roots, &Vec::new()).unwrap_err();
    assert!(matches!(none, ResolveError::NoPackument { .. }));
    assert_eq!(none.message(), "no packument for a");
    let old = table(vec![("a", packument_with("0.1.0", &[]))]);
    let no_match = reg.resolve_tree_from(&roots, &old).unwrap_err();
    assert!(matches!(no_match, ResolveError::NoMatch { .. }));
    assert_eq!(
        no_match.message(),
        "no published version of a matches ^1"
    );
    let tagged = table(vec![("a", packument_with("1.0.0", &[("b", "next")]))]);
    let unsupported = reg.resolve_tree_from(&roots, &tagged).unwrap_err();
    assert!(matches!(unsupported, ResolveError::Unsupported { .. }));
    assert!(unsupported
        .message()
        .starts_with("a@1.0.0 dependency `b`: unsupported version \"next\": "));
}

#[test]
fn a_walk_asks_for_each_document_once() {
    let pkgs = table(vec![
        ("a", packument_with("1.0.0", &[("b", "^1"), ("c", "^1")])),
        ("b", packument_with("1.2.0", &[("c", "^1"), ("a", "*")])),
        ("c", packument_with("1.5.0", &[])),
    ]);
    let roots = vec![("a".to_string(), range("^1"))];
    let mut walk = TreeWalk::new(&Registry::npm(), &roots);
    let mut asked: Vec<String> = Vec::new();
    loop {
        match walk.step() {
            TreeStep::Fetch(name) => {
                let doc = &pkgs.iter().find(|(n, _)| *n == name).unwrap().1;
                asked.push(name);
                walk.supply(doc).unwrap();
            }
            TreeStep::Done => break,
            TreeStep::Failed(e) => panic!("{}", e.message()),
        }
    }
    assert_eq!(asked, ["a", "b", "c"]);
    assert_eq!(walk.finish().len(), 3);
}

#[test]
fn hash_changes_with_content_and_markers_round_trip() {
    let h1 = file_hash(b"alpha");
    let h2 = file_hash(b"alphb");
    assert_ne!(h1, h2);
    assert_eq!(h1.len(), 16);
    assert!(!marker_matches(None, &h2));
    assert!(marker_matches(Some(&h2), &h2));
    assert!(marker_matches(Some(&format!("{h2}\n")), &h2));
    assert!(!marker_matches(Some(&h2), &h1));
}

#[test]
fn fresh_and_missing_locks_are_not_stale() {
    assert!(
        !lock_is_stale(Some((0, 0))),
        "a just-created lock must not be considered stale"
    );
    assert!(
        !lock_is_stale(None),
        "a missing lock reads as not stale (keep waiting)"
    );
    assert!(!lock_is_stale(Some((600, 0))));
    assert!(lock_is_stale(Some((600, 1))));
    assert!(lock_is_stale(Some((601, 0))));
}

#[test]
fn with_lock_runs_the_closure_and_releases() {
    assert_eq!(with_lock(LockEvent::Created), LockAction::Work);
    assert_eq!(
        with_lock(LockEvent::Exists(Some((10, 0)))),
        LockAction::Wait(200)
    );
    assert_eq!(with_lock(LockEvent::Exists(None)), LockAction::Wait(200));
    assert_eq!(
        with_lock(LockEvent::Exists(Some((6000, 0)))),
        LockAction::Reclaim
    );
    assert_eq!(with_lock(LockEvent::Failed), LockAction::Abort);
}

#[test]
fn clear_directory_empties_and_recreates() {
    // The removal is tried again while the directory fills up, five times at most.
    let mut retry = ClearRetry::new();
    let mut delays: Vec<u64> = Vec::new();
    while let Some(ms) = retry.next_delay(Some(39)) {
        delays.push(ms);
    }
    assert_eq!(delays, [50, 100, 200, 400, 800]);
    assert_eq!(ClearRetry::new().next_delay(Some(2)), None);
    assert_eq!(ClearRetry::new().next_delay(None), None);
    assert!(is_not_empty_error(Some(66)));
    assert!(!is_not_empty_error(Some(13)));
}

#[test]
fn fetch_refuses_non_https() {
    for url in [
        "http://registry.npmjs.org/x",
        "file:///etc/passwd",
        "ftp://example.com/x",
        "registry.npmjs.org/x",
    ] {
        match fetch(url) {
            FetchStep::Refuse(e) => assert!(
                e.message()
                    .starts_with("refusing to fetch non-https URL \""),
                "{url:?} must be refused"
            ),
            other => panic!("{url:?} must be refused, got {other:?}"),
        }
    }
    assert_eq!(fetch("https://registry.npmjs.org/x"), FetchStep::Try);
}

#[test]
fn a_download_is_tried_twice() {
    assert_eq!(after_try(1, true), FetchStep::Finish);
    assert_eq!(after_try(1, false), FetchStep::RetryAfter(500));
    assert_eq!(after_try(2, false), FetchStep::Finish);
    assert_eq!(
        github_archive_url("o", "r", "v1"),
        "https://github.com/o/r/archive/v1.zip"
    );
}

#[test]
fn timeouts_from_cli_flags() {
    let d = Timeouts::default();
    let unset = Timeouts::from_cli(None, false);
    assert_eq!((unset.connect, unset.global), (d.connect, d.global));
    let t = Timeouts::from_cli(Some(5), false);
    assert_eq!(t.global, Some(5));
    assert_eq!(t.connect, d.connect);
    let off = Timeouts::from_cli(Some(5), true);
    assert_eq!((off.connect, off.global), (None, None));
}

#[test]
fn timeouts_are_set_once() {
    let mut setting = TimeoutSetting::new();
    assert_eq!(setting.timeouts(), Timeouts::default());
    setting.set_timeouts(Timeouts::from_cli(Some(5), false));
    setting.set_timeouts(Timeouts::from_cli(None, true));
    assert_eq!(setting.timeouts().global, Some(5));
}

const SAMPLE: &str = r#"{
    "name": "demo", "version": "1.0.0", "lockfileVersion": 3,
    "packages": {
        "": { "name": "demo", "version": "1.0.0" },
        "node_modules/lit": {
            "version": "3.3.3",
            "resolved": "https://registry.npmjs.org/lit/-/lit-3.3.3.tgz",
            "integrity": "sha512-HP1SZDqaLDPwsNiqRqi5NcP0SSXciX2s9E+RyqJIIqGo+vJeN5AJVM98CXmW/Wux0nQ5L7jeWUdplCEf0Ee+tg==",
            "license": "BSD-3-Clause"
        },
        "node_modules/@lit/context": {
            "version": "1.1.6",
            "resolved": "https://registry.npmjs.org/@lit/context/-/context-1.1.6.tgz",
            "license": "BSD-3-Clause"
        },
        "node_modules/mystery": { "version": "0.0.1" },
        "node_modules/local-link": { "version": "1.0.0", "link": true }
    }
}"#;

fn sample_components() -> Vec<Component> {
    components(&Lockfile::parse(SAMPLE).unwrap())
}

#[test]
fn components_skip_root_and_links_and_build_purls() {
    let c = sample_components();
    let names: Vec<&str> = c.iter().map(|x| x.name.as_str()).collect();
    assert_eq!(names, ["@lit/context", "lit", "mystery"]);
    assert_eq!(c[0].purl, "pkg:npm/%40lit/context@1.1.6");
    assert_eq!(c[1].purl, "pkg:npm/lit@3.3.3");
}

#[test]
fn license_summary_groups_and_marks_unknown_as_noassertion() {
    let summary = license_summary(&sample_components());
    assert_eq!(
        summary.get("BSD-3-Clause").unwrap(),
        &["@lit/context@1.1.6", "lit@3.3.3"]
    );
    assert_eq!(summary.get("NOASSERTION").unwrap(), &["mystery@0.0.1"]);
    assert_eq!(summary.len(), 2);
    assert!(summary.get("MIT").is_none());
}

#[test]
fn a_summary_lists_each_license_with_its_packages() {
    assert_eq!(
        render_summary(&sample_components()),
        "3 package(s) across 2 license(s)\n\nBSD-3-Clause (2)\n  @lit/context@1.1.6\n  \
         lit@3.3.3\n\nNOASSERTION (1)\n  mystery@0.0.1\n"
    );
}

#[test]
fn cyclonedx_has_required_shape_purls_licenses_and_sha512_hash() {
    let json: serde_json::Value =
        serde_json::from_str(&to_cyclonedx(&sample_components(), "demo", "1.0.0", None)).unwrap();
    assert_eq!(json["bomFormat"], "CycloneDX");
    assert_eq!(json["specVersion"], "1.6");
    assert!(json["metadata"].get("timestamp").is_none());

    let lit = &json["components"][1];
    assert_eq!(lit["name"], "lit");
    assert_eq!(lit["purl"], "pkg:npm/lit@3.3.3");
    assert_eq!(lit["licenses"][0]["license"]["id"], "BSD-3-Clause");
    let hex = lit["hashes"][0]["content"].as_str().unwrap();
    assert_eq!(lit["hashes"][0]["alg"], "SHA-512");
    assert_eq!(hex.len(), 128);
    assert!(hex.bytes().all(|b| b.is_ascii_hexdigit()));
    let mystery = &json["components"][2];
    assert_eq!(mystery["name"], "mystery");
    assert!(mystery.get("licenses").is_none());
    assert!(mystery.get("hashes").is_none());
}

#[test]
fn cyclonedx_uses_expression_for_compound_licenses() {
    let comps = vec![Component {
        name: "dual".into(),
        version: "1.0.0".into(),
        purl: "pkg:npm/dual@1.0.0".into(),
        license: Some("MIT OR Apache-2.0".into()),
        resolved: None,
        integrity: None,
    }];
    let json: serde_json::Value =
        serde_json::from_str(&to_cyclonedx(&comps, "x", "1", None)).unwrap();
    assert_eq!(
        json["components"][0]["licenses"][0]["expression"],
        "MIT OR Apache-2.0"
    );
}

#[test]
fn spdx_has_required_shape_ids_purls_and_license() {
    let json: serde_json::Value = serde_json::from_str(&to_spdx(
        &sample_components(),
        "demo-sbom",
        "https://spdx.example/demo",
        "2026-01-01T00:00:00Z",
    ))
    .unwrap();
    assert_eq!(json["spdxVersion"], "SPDX-2.3");
    assert_eq!(json["SPDXID"], "SPDXRef-DOCUMENT");
    assert_eq!(json["creationInfo"]["created"], "2026-01-01T00:00:00Z");

    let scoped = &json["packages"][0];
    assert_eq!(scoped["SPDXID"], "SPDXRef-Package--lit-context-1.1.6");
    assert_eq!(scoped["licenseDeclared"], "BSD-3-Clause");
    assert_eq!(
        scoped["externalRefs"][0]["referenceLocator"],
        "pkg:npm/%40lit/context@1.1.6"
    );
    assert_eq!(json["packages"][2]["licenseDeclared"], "NOASSERTION");
}

#[test]
fn sri_decodes_to_64_byte_sha512_hex() {
    let hex = sri_to_sha512_hex(Some(
        "sha512-HP1SZDqaLDPwsNiqRqi5NcP0SSXciX2s9E+RyqJIIqGo+vJeN5AJVM98CXmW/Wux0nQ5L7jeWUdplCEf0Ee+tg==",
    ))
    .unwrap();
    assert_eq!(hex.len(), 128);
    assert!(sri_to_sha512_hex(Some("sha1-deadbeef")).is_none());
    assert!(sri_to_sha512_hex(None).is_none());
    assert_eq!(sri_to_sha512_hex(Some("sha512-AP+A")).as_deref(), Some("00ff80"));
}

#[test]
fn times_are_written_to_the_second() {
    assert_eq!(rfc3339_at(0).as_deref(), Some("1970-01-01T00:00:00Z"));
    assert_eq!(
        rfc3339_at(1_767_225_600).as_deref(),
        Some("2026-01-01T00:00:00Z")
    );
    assert_eq!(
        rfc3339_at(253_402_300_799).as_deref(),
        Some("9999-12-31T23:59:59Z")
    );
    assert_eq!(
        rfc3339_at(-62_167_219_200).as_deref(),
        Some("0000-01-01T00:00:00Z")
    );
    assert_eq!(rfc3339_at(253_402_300_800), None);
    assert_eq!(now_rfc3339().unwrap().len(), 20);
}

#[test]
fn documents_print_and_read_back() {
    let doc = json(r#"{"z":[1,-2,true,null],"a":{"b":"\"x\""}}"#);
    assert_eq!(doc.to_compact(), r#"{"z":[1,-2,true,null],"a":{"b":"\"x\""}}"#);
    assert_eq!(json(&doc.to_pretty()), doc);
    assert_eq!(doc.to_pretty().lines().next(), Some("{"));
    let float = json("1.50");
    assert_eq!(float, Json::Number(Number::Float("1.5".to_string())));
    assert_eq!(float.to_compact(), "1.5");
    assert_eq!(
        json(r#"{"a":1,"b":2,"a":3}"#).to_compact(),
        r#"{"a":3,"b":2}"#
    );
}

#[test]
fn a_conventional_tarball_has_no_integrity() {
    let doc = Json::parse(r#"{"versions":{"1.0.0":{"dist":{"integrity":"sha512-AA"}}}}"#).unwrap();
    let resolved = Registry::npm()
        .resolve("@s/a", &Range::any(), &doc)
        .unwrap()
        .clone();
    assert_eq!(
        resolved.tarball_url,
        "https://registry.npmjs.org/@s/a/-/a-1.0.0.tgz"
    );
    assert_eq!(resolved.integrity, None);
}
