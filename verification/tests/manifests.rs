use npm_utils::cli::{
    caret_range, default_name, download_name, enrich_licenses, package_license, report_changes,
    report_installed, report_resolved, spdx_namespace, split_name_range, strip_cargo_prefix,
    wants_package, LicenseOpts, LicenseSource,
};
use npm_utils::json::Json;
use npm_utils::package_json::deps::DependencyError;
use npm_utils::package_json::manifest::{
    dependencies, remove_dependency, scaffold, to_pretty, upsert_dependency,
};
use npm_utils::package_json::spec::Range;
use npm_utils::package_json::{parse_dependencies, Entry, License, PackageJson, PackageType};
use npm_utils::project::{
    apply_changes, bump_floor, plan_upgrade, plan_upgrade_with, read_manifest,
    registry_requirements, remove, Change, ManifestError, UpgradeError,
};
use npm_utils::registry::{PackumentDetail, Registry, Resolved};
use npm_utils::sbom::Component;
use npm_utils::version::Version;

fn json(text: &str) -> Json {
    Json::parse(text).unwrap()
}

fn strings(xs: &[&str]) -> Vec<String> {
    xs.iter().map(|s| s.to_string()).collect()
}

fn pinned_caret_and_git() {
    let deps = parse_dependencies(
        r#"{ "dependencies": {
            "lit": "3.3.3",
            "bootstrap": "^5.3.8",
            "forked": "github:owner/repo#abc123"
        } }"#,
    )
    .unwrap();
    assert_eq!(deps.get("lit").unwrap().version, "3.3.3");
    assert!(!deps.get("lit").unwrap().is_git);
    assert_eq!(deps.get("bootstrap").unwrap().version, "5.3.8");
    assert_eq!(deps.get("forked").unwrap().version, "abc123");
    assert!(deps.get("forked").unwrap().is_git);
    assert_eq!(deps.len(), 3);
    assert!(deps.get("absent").is_none());
    assert_eq!(deps.at(0).unwrap().name, "lit");
    assert!(deps.at(3).is_none());
}

#[test]
fn package_json_parses_pinned_caret_and_git_specs() {
    pinned_caret_and_git();
}

#[test]
fn mod_parses_pinned_caret_and_git_specs() {
    pinned_caret_and_git();
}

#[test]
fn dependencies_with_unsafe_names_or_versions_are_refused() {
    for text in [
        r#"{"dependencies":{"../evil":"1.0.0"}}"#,
        r#"{"dependencies":{"":"1.0.0"}}"#,
        r#"{"dependencies":{"x":"../../etc"}}"#,
        r#"{"devDependencies":{}}"#,
        "{",
    ] {
        let e = parse_dependencies(text).unwrap_err();
        assert!(!e.message().is_empty(), "{text}");
    }
    assert!(matches!(
        parse_dependencies("{"),
        Err(DependencyError::Json(_))
    ));
}

#[test]
fn resolve_main_from_exports_and_fallbacks() {
    let a = PackageJson::from_json(
        r#"{"exports":{".":{"types":"./dev.d.ts","default":"./index.js"},"./decorators.js":{"default":"./decorators.js"}}}"#,
    )
    .unwrap();
    assert_eq!(a.resolve_main().as_deref(), Some("index.js"));
    assert_eq!(
        a.resolve_subpath("./decorators.js").as_deref(),
        Some("decorators.js")
    );

    let b = PackageJson::from_json(
        r#"{"type":"module","exports":{".":{"browser":{"development":"./development/lit-html.js","default":"./lit-html.js"},"default":"./lit-html.js"}}}"#,
    )
    .unwrap();
    assert_eq!(b.resolve_main().as_deref(), Some("lit-html.js"));

    let c = PackageJson::from_json(
        r#"{"main":"dist/js/bootstrap.js","module":"dist/js/bootstrap.esm.js"}"#,
    )
    .unwrap();
    assert_eq!(
        c.resolve_main().as_deref(),
        Some("dist/js/bootstrap.esm.js")
    );
}

#[test]
fn resolve_subpath_picks_import_condition_for_cjs_package() {
    let rt = PackageJson::from_json(
        r#"{"type":"commonjs","exports":{"./helpers/decorate":[{"node":"./src/helpers/decorate.js","import":"./src/helpers/esm/decorate.js","default":"./src/helpers/decorate.js"}]}}"#,
    )
    .unwrap();
    assert_eq!(rt.package_type(), PackageType::CommonJs);
    assert!(rt.resolve_main().is_none());
    assert_eq!(
        rt.resolve_subpath("./helpers/decorate").as_deref(),
        Some("src/helpers/esm/decorate.js")
    );
    assert_eq!(
        rt.resolve_subpath("helpers/decorate").as_deref(),
        Some("src/helpers/esm/decorate.js")
    );
    assert!(rt
        .referenced_paths()
        .iter()
        .any(|p| p == "src/helpers/esm/decorate.js"));
}

#[test]
fn condition_order_prefers_browser_and_import_never_node() {
    let x = PackageJson::from_json(
        r#"{"exports":{".":{"node":"./n.js","require":"./r.js","import":"./esm.js","default":"./def.js"}}}"#,
    )
    .unwrap();
    assert_eq!(x.resolve_main().as_deref(), Some("esm.js"));

    let y = PackageJson::from_json(
        r#"{"exports":{".":{"module":"./m.js","browser":"./b.js","default":"./d.js"}}}"#,
    )
    .unwrap();
    assert_eq!(y.resolve_main().as_deref(), Some("b.js"));
}

#[test]
fn subpath_pattern_becomes_prefix_entry() {
    let pkg =
        PackageJson::from_json(r#"{"exports":{".":"./index.js","./*":"./dist/*.js"}}"#).unwrap();
    assert_eq!(pkg.resolve_subpath("./foo").as_deref(), Some("dist/foo.js"));
    assert!(pkg.entries().iter().any(
        |e| matches!(e, Entry::Prefix { subpath, dir } if subpath.is_empty() && dir == "dist/")
    ));
    assert!(pkg
        .entries()
        .iter()
        .any(|e| matches!(e, Entry::Bare(t) if t == "index.js")));
}

#[test]
fn rejects_path_traversal_targets() {
    let evil = PackageJson::from_json(r#"{"exports":{".":"../escape.js"}}"#).unwrap();
    assert!(evil.resolve_main().is_none());
}

#[test]
fn the_longest_pattern_is_taken() {
    let pkg = PackageJson::from_json(
        r#"{"exports":{"./*":"./all/*.js","./icons/*":"./icons/*.svg","./icons/a":"./exact.svg"}}"#,
    )
    .unwrap();
    assert_eq!(
        pkg.resolve_subpath("./icons/b").as_deref(),
        Some("icons/b.svg")
    );
    assert_eq!(
        pkg.resolve_subpath("./icons/a").as_deref(),
        Some("exact.svg")
    );
    assert_eq!(pkg.resolve_subpath("./x").as_deref(), Some("all/x.js"));
    assert_eq!(pkg.resolve_subpath("./../x"), None);
}

#[test]
fn manifests_tell_their_fields() {
    let pkg = PackageJson::from_json(
        r#"{"name":"n","version":"1.0.0","type":"module","license":{"type":"MIT"}}"#,
    )
    .unwrap();
    assert_eq!(pkg.name(), Some("n"));
    assert_eq!(pkg.version(), Some("1.0.0"));
    assert_eq!(pkg.package_type(), PackageType::Module);
    assert_eq!(pkg.license().as_deref(), Some("MIT"));
    assert!(PackageJson::from_json("{").is_err());
    assert_eq!(PackageJson::from_value(json("{}")).name(), None);
}

#[test]
fn scaffold_has_name_version_and_empty_deps() {
    let doc = scaffold("my-app", "1.0.0");
    assert_eq!(doc.text("name"), Some("my-app"));
    assert_eq!(doc.text("version"), Some("1.0.0"));
    assert!(doc.members("dependencies").unwrap().is_empty());
}

#[test]
fn entries_lead_where_resolution_does() {
    let pkg = PackageJson::from_json(
        r#"{"exports":{"./b":{"browser":"./b.js"},".":"./main.js","./x/*":"./x/*.js","./no":null}}"#,
    )
    .unwrap();
    let entries = pkg.clone().entries();
    assert_eq!(entries.len(), 3);
    for entry in &entries {
        match entry {
            Entry::Bare(t) => assert_eq!(pkg.resolve_main().as_ref(), Some(t)),
            Entry::Subpath { subpath, target } => {
                let key = format!("./{subpath}");
                assert_eq!(pkg.resolve_subpath(&key).as_ref(), Some(target));
            }
            Entry::Prefix { subpath, dir } => {
                assert_eq!((subpath.as_str(), dir.as_str()), ("x/", "x/"));
            }
        }
    }
}

#[test]
fn upsert_preserves_other_keys_and_sorts_dependencies() {
    let mut doc = json(
        r#"{"name":"app","version":"1.0.0","dependencies":{"c":"^1","a":"^1"},"scripts":{"build":"x"}}"#,
    );
    upsert_dependency(&mut doc, "b", "^2");
    let keys: Vec<&str> = doc
        .as_object()
        .unwrap()
        .iter()
        .map(|(k, _)| k.as_str())
        .collect();
    assert_eq!(keys, ["name", "version", "dependencies", "scripts"]);
    assert_eq!(
        dependencies(&doc),
        vec![
            ("a".to_string(), "^1".to_string()),
            ("b".to_string(), "^2".to_string()),
            ("c".to_string(), "^1".to_string()),
        ]
    );
    assert_eq!(doc.get("scripts").unwrap().text("build"), Some("x"));
}

#[test]
fn upsert_updates_an_existing_range_in_place() {
    let mut doc = scaffold("app", "1.0.0");
    upsert_dependency(&mut doc, "lit", "^3");
    upsert_dependency(&mut doc, "lit", "^3.2.0");
    assert_eq!(
        dependencies(&doc),
        vec![("lit".to_string(), "^3.2.0".to_string())]
    );
}

#[test]
fn upsert_creates_the_dependencies_object_when_absent() {
    let mut doc = json(r#"{"name":"app","version":"1.0.0"}"#);
    upsert_dependency(&mut doc, "ms", "^2");
    assert_eq!(doc.get("dependencies").unwrap().text("ms"), Some("^2"));
}

#[test]
fn to_pretty_is_two_space_indented_with_trailing_newline() {
    let doc = scaffold("app", "1.0.0");
    let text = to_pretty(&doc);
    assert!(text.ends_with("}\n"));
    assert!(
        text.contains("\n  \"name\": \"app\""),
        "two-space indent: {text}"
    );
    assert_eq!(json(&text), doc);
}

#[test]
fn removal_drops_what_is_there_and_says_so() {
    let mut doc = json(r#"{"name":"app","dependencies":{"b":"^1","a":"^2","c":"^3"},"x":1}"#);
    assert!(remove_dependency(&mut doc, "a"));
    assert!(!remove_dependency(&mut doc, "a"));
    assert_eq!(
        doc,
        json(r#"{"name":"app","dependencies":{"b":"^1","c":"^3"},"x":1}"#)
    );
    let removed = remove(&mut doc, &strings(&["c", "absent", "c", "b"]));
    assert_eq!(removed, ["c", "b"]);
    assert_eq!(doc, json(r#"{"name":"app","dependencies":{},"x":1}"#));
    let mut none = json("[]");
    assert!(!remove_dependency(&mut none, "a"));
}

#[test]
fn read_manifest_wants_an_object() {
    assert_eq!(
        read_manifest("p/package.json", r#"{"name":"x"}"#)
            .unwrap()
            .text("name"),
        Some("x")
    );
    let e = read_manifest("p/package.json", "[]").unwrap_err();
    assert!(matches!(e, ManifestError::NotObject { .. }));
    assert_eq!(e.message(), "p/package.json is not a JSON object");
    let e = read_manifest("p/package.json", "{").unwrap_err();
    assert!(matches!(e, ManifestError::Parse { .. }));
    assert!(e.message().starts_with("parsing p/package.json: "));
}

#[test]
fn bump_floor_only_moves_floating_ranges() {
    let v = Version::parse("3.4.2").unwrap();
    assert_eq!(bump_floor("^3.1.0", &v).as_deref(), Some("^3.4.2"));
    assert_eq!(bump_floor("~3.1.0", &v).as_deref(), Some("~3.4.2"));
    assert_eq!(bump_floor("3.1.0", &v), None);
    assert_eq!(bump_floor("*", &v), None);
    assert_eq!(bump_floor(">=3 <4", &v), None);
    assert_eq!(bump_floor("", &v), None);
}

#[test]
fn bump_floor_leaves_ranges_of_several_parts() {
    let v = Version::parse("2.5.0").unwrap();
    for range in [
        "^1.6.2 || ^2.1.0",
        "^1.6.2||^2.1.0",
        "^2.1.0 <2.4.0",
        "^2.1.0, <2.4.0",
        "^2.1.0,<2.4.0",
        "~1.2 - 2",
        " ^2.1.0",
    ] {
        assert_eq!(bump_floor(range, &v), None, "{range}");
    }
    assert_eq!(bump_floor("^2", &v).as_deref(), Some("^2.5.0"));
    assert_eq!(bump_floor("^2.1.0 ", &v).as_deref(), Some("^2.5.0"));
    assert_eq!(bump_floor("~ 2.1.0", &v).as_deref(), Some("~2.5.0"));
    assert_eq!(bump_floor("^", &v).as_deref(), Some("^2.5.0"));
    assert_eq!(bump_floor("~2.1", &v).as_deref(), Some("~2.5.0"));
    assert_eq!(
        bump_floor("^2.1.0-rc.1+b", &v).as_deref(),
        Some("^2.5.0")
    );
}

fn resolved_at(version: &str) -> Resolved {
    let doc = json(&format!(r#"{{"versions":{{"{version}":{{}}}}}}"#));
    Registry::npm().resolve("", &Range::any(), &doc).unwrap()
}

fn change(name: &str, from: &str, to: &str) -> Change {
    Change {
        name: name.into(),
        from: from.into(),
        to: to.into(),
    }
}

const UPGRADABLE: &str = r#"{"name":"app","version":"1.0.0","dependencies":{
     "lit":"^3.0.0","ms":"~2.1.0","pinned":"1.2.3","gitdep":"github:o/r"
   }}"#;

#[test]
fn plan_upgrade_bumps_floating_and_skips_pinned_filtered_and_non_registry() {
    let doc = json(UPGRADABLE);
    let all = plan_upgrade_with(&doc, &vec![], &|_n: &str, _r: &Range| {
        Ok(resolved_at("9.9.9"))
    })
    .unwrap();
    assert_eq!(
        all,
        vec![
            change("lit", "^3.0.0", "^9.9.9"),
            change("ms", "~2.1.0", "~9.9.9"),
        ]
    );

    let filtered = plan_upgrade_with(&doc, &strings(&["lit"]), &|_n: &str, _r: &Range| {
        Ok(resolved_at("9.9.9"))
    })
    .unwrap();
    assert_eq!(filtered, vec![change("lit", "^3.0.0", "^9.9.9")]);
}

#[test]
fn plan_upgrade_is_empty_when_nothing_floats() {
    let doc = json(r#"{"name":"app","dependencies":{"lit":"^9.9.9"}}"#);
    let changes = plan_upgrade_with(&doc, &vec![], &|_n: &str, _r: &Range| {
        Ok(resolved_at("9.9.9"))
    })
    .unwrap();
    assert!(
        changes.is_empty(),
        "no floor move → empty plan: {changes:?}"
    );
}

#[test]
fn an_upgrade_stops_at_the_first_error() {
    let doc = json(UPGRADABLE);
    let failed = plan_upgrade_with(&doc, &vec![], &|n: &str, _r: &Range| {
        Err(format!("no {n}"))
    });
    assert_eq!(failed, Err(UpgradeError::Resolve("no lit".to_string())));
    let tagged = json(r#"{"dependencies":{"a":"next"}}"#);
    let failed = plan_upgrade_with(&tagged, &vec![], &|_n: &str, _r: &Range| {
        Ok(resolved_at("1.0.0"))
    })
    .unwrap_err();
    assert!(matches!(failed, UpgradeError::Range(_)));
    assert!(failed.message().contains("dist-tag"));
}

#[test]
fn an_upgrade_by_documents_settles() {
    let mut doc = json(UPGRADABLE);
    let packuments = vec![
        (
            "lit".to_string(),
            json(r#"{"versions":{"3.3.3":{},"3.1.0":{},"4.0.0":{}}}"#),
        ),
        ("ms".to_string(), json(r#"{"versions":{"2.1.3":{}}}"#)),
        ("pinned".to_string(), json(r#"{"versions":{"1.2.3":{}}}"#)),
    ];
    let registry = Registry::npm();
    let changes = plan_upgrade(&doc, &vec![], &registry, &packuments).unwrap();
    assert_eq!(
        changes,
        vec![
            change("lit", "^3.0.0", "^3.3.3"),
            change("ms", "~2.1.0", "~2.1.3")
        ]
    );
    apply_changes(&mut doc, &changes);
    assert_eq!(
        doc.get("dependencies").unwrap().text("lit"),
        Some("^3.3.3")
    );
    assert_eq!(
        plan_upgrade(&doc, &vec![], &registry, &packuments).unwrap(),
        vec![]
    );
    let same = doc.copy();
    apply_changes(&mut doc, &vec![]);
    assert_eq!(doc, same);
    assert!(matches!(
        plan_upgrade(&doc, &vec![], &registry, &Vec::new()),
        Err(UpgradeError::Resolve(_))
    ));
}

#[test]
fn only_registry_dependencies_are_asked_for() {
    let roots = registry_requirements(&json(UPGRADABLE)).unwrap();
    let names: Vec<&str> = roots.iter().map(|(n, _)| n.as_str()).collect();
    assert_eq!(names, ["lit", "ms", "pinned"]);
    assert_eq!(roots[2].1.to_string(), "=1.2.3");
    let e = registry_requirements(&json(r#"{"overrides":{"a":"1"}}"#)).unwrap_err();
    assert_eq!(e.message(), "`overrides` in package.json is not supported");
    let e = registry_requirements(&json(r#"{"dependencies":{"a":"next"}}"#)).unwrap_err();
    assert!(e
        .message()
        .starts_with("dependency `a`: unsupported version \"next\": "));
}

#[test]
fn split_name_range_handles_scopes_and_bare_names() {
    let split = |s: &str| {
        let (name, range) = split_name_range(s);
        (name, range)
    };
    assert_eq!(split("lit"), ("lit".to_string(), None));
    assert_eq!(
        split("lit@^3"),
        ("lit".to_string(), Some("^3".to_string()))
    );
    assert_eq!(
        split("@lit/context@^1"),
        ("@lit/context".to_string(), Some("^1".to_string()))
    );
    assert_eq!(split("@scope/pkg"), ("@scope/pkg".to_string(), None));
}

#[test]
fn strip_cargo_prefix_drops_the_repassed_subcommand_name() {
    assert_eq!(
        strip_cargo_prefix(strings(&["cargo-npm-utils", "npm-utils", "add", "lit"])),
        strings(&["cargo-npm-utils", "add", "lit"])
    );
    assert_eq!(
        strip_cargo_prefix(strings(&["cargo-npm-utils", "install"])),
        strings(&["cargo-npm-utils", "install"])
    );
    assert_eq!(
        strip_cargo_prefix(strings(&["cargo-npm-utils"])),
        strings(&["cargo-npm-utils"])
    );
}

#[test]
fn license_opts_map_to_packument_detail() {
    let detail = |skip: bool, no_skip: bool| {
        LicenseOpts {
            skip_license: skip,
            no_skip_license: no_skip,
        }
        .detail()
    };
    assert_eq!(detail(false, false), PackumentDetail::Full);
    assert_eq!(detail(false, true), PackumentDetail::Full);
    assert_eq!(detail(true, false), PackumentDetail::Abbreviated);
    assert_eq!(PackumentDetail::Full.accept(), None);
    assert!(PackumentDetail::Abbreviated.accept().is_some());
}

fn component(name: &str, license: Option<&str>) -> Component {
    Component {
        purl: format!("pkg:npm/{name}@1.0.0"),
        name: name.to_string(),
        version: "1.0.0".to_string(),
        license: license.map(str::to_string),
        resolved: None,
        integrity: None,
    }
}

fn installed_license(license: &str) -> Option<String> {
    package_license(Some(&format!(
        r#"{{"name":"foo","version":"1.0.0","license":"{license}"}}"#
    )))
}

#[test]
fn auto_fills_only_a_missing_license_from_package_json() {
    let mut comps = vec![component("foo", None), component("bar", Some("Apache-2.0"))];
    let found = vec![installed_license("MIT"), package_license(None)];
    enrich_licenses(&mut comps, &found, LicenseSource::Auto);
    assert_eq!(comps[0].license.as_deref(), Some("MIT"));
    assert_eq!(comps[1].license.as_deref(), Some("Apache-2.0"));
    assert!(wants_package(LicenseSource::Auto, &component("x", None)));
    assert!(!wants_package(LicenseSource::Auto, &comps[1]));
}

#[test]
fn lockfile_source_never_reads_package_json() {
    let mut comps = vec![component("foo", None)];
    enrich_licenses(
        &mut comps,
        &vec![installed_license("MIT")],
        LicenseSource::Lockfile,
    );
    assert_eq!(comps[0].license, None);
    assert!(!wants_package(LicenseSource::Lockfile, &comps[0]));
}

#[test]
fn package_source_prefers_package_json_but_keeps_lockfile_when_uninstalled() {
    let mut comps = vec![
        component("foo", Some("WTFPL")),
        component("ghost", Some("ISC")),
    ];
    let found = vec![installed_license("MIT"), package_license(None)];
    enrich_licenses(&mut comps, &found, LicenseSource::Package);
    assert_eq!(comps[0].license.as_deref(), Some("MIT"));
    assert_eq!(comps[1].license.as_deref(), Some("ISC"));
    assert_eq!(package_license(Some("{")), None);
}

#[test]
fn what_is_printed_is_as_it_was() {
    let r = resolved_at("1.2.3");
    assert_eq!(
        report_installed(&vec![resolved_at("1.2.3"), resolved_at("2.0.0")]),
        "installed 2 package(s)\n  @1.2.3\n  @2.0.0\n"
    );
    assert_eq!(
        report_resolved(&r),
        "@1.2.3\n  tarball:   https://registry.npmjs.org//-/-1.2.3.tgz\n  \
         integrity: (none published)\n"
    );
    assert_eq!(
        report_changes(&vec![change("a", "^1", "^2")]),
        "a: ^1 → ^2\n"
    );
    assert_eq!(download_name("@s/pkg", &r.version), "pkg-1.2.3.tgz");
    assert_eq!(caret_range(&r.version), "^1.2.3");
    assert_eq!(default_name(Some("proj")), "proj");
    assert_eq!(default_name(Some("")), "app");
    assert_eq!(default_name(None), "app");
    assert_eq!(
        spdx_namespace("app", "2026-01-01T00:00:00Z"),
        "https://spdx.org/spdxdocs/app-2026-01-01T00:00:00Z"
    );
}
