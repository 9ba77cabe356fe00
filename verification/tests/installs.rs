use npm_utils::extract::Action;
use npm_utils::install::run::{Event, Install, Stage, Step};
use npm_utils::install::{
    installed_set, is_up_to_date, link_bins, parse_lockfile, plan_lockfile, root_requirements,
    tree_marker, InstallError, PlannedPackage,
};
use npm_utils::json::Json;
use npm_utils::package_json::lock::{constraint_allows, LockError, LockedPackage, Lockfile};
use npm_utils::package_json::spec::Range;
use npm_utils::path_safety::{ensure_within, PathError};
use npm_utils::registry::{Registry, Resolved};

const SAMPLE_LOCK: &str = r#"{
  "name": "harness",
  "lockfileVersion": 3,
  "packages": {
    "": { "name": "harness", "devDependencies": { "typescript": "^5" } },
    "node_modules/@scope/pkg": {
      "version": "1.2.3",
      "resolved": "https://registry.npmjs.org/@scope/pkg/-/pkg-1.2.3.tgz",
      "integrity": "sha512-BBBB"
    },
    "node_modules/typescript": {
      "version": "5.9.3",
      "resolved": "https://registry.npmjs.org/typescript/-/typescript-5.9.3.tgz",
      "integrity": "sha512-AAAA",
      "dev": true,
      "bin": { "tsc": "bin/tsc", "tsserver": "bin/tsserver" }
    },
    "node_modules/fsevents": {
      "version": "2.3.2",
      "resolved": "https://registry.npmjs.org/fsevents/-/fsevents-2.3.2.tgz",
      "integrity": "sha512-CCCC",
      "dev": true,
      "optional": true,
      "os": ["darwin"]
    },
    "node_modules/local-link": { "resolved": "file:../local", "link": true }
  }
}"#;

#[test]
fn parse_lockfile_selects_installable_entries_and_parses_bins() {
    let plan = parse_lockfile(SAMPLE_LOCK, "linux", "x86_64").unwrap();
    let names: Vec<&str> = plan.iter().map(|p| p.name.as_str()).collect();
    assert_eq!(names, ["@scope/pkg", "typescript"], "got {names:?}");

    let on_mac = parse_lockfile(SAMPLE_LOCK, "macos", "aarch64").unwrap();
    let names: Vec<&str> = on_mac.iter().map(|p| p.name.as_str()).collect();
    assert_eq!(
        names,
        ["@scope/pkg", "fsevents", "typescript"],
        "got {names:?}"
    );

    let ts = plan.iter().find(|p| p.name == "typescript").unwrap();
    assert!(ts.bin.iter().any(|(n, p)| n == "tsc" && p == "bin/tsc"));
    assert!(ts.bin.iter().any(|(n, _)| n == "tsserver"));
}

#[test]
fn parse_lockfile_rejects_old_versions_and_traversal() {
    assert!(ensure_within("node_modules/@s/p").is_ok());
    assert!(ensure_within("node_modules/../escape").is_err());

    let v1 = r#"{"lockfileVersion":1,"dependencies":{}}"#;
    assert_eq!(
        parse_lockfile(v1, "linux", "x86_64"),
        Err(InstallError::Lock(LockError::Unsupported(1)))
    );

    let evil = r#"{"lockfileVersion":3,"packages":{"node_modules/../evil":{"resolved":"https://x/y.tgz","integrity":"sha512-A"}}}"#;
    assert_eq!(
        parse_lockfile(evil, "linux", "x86_64"),
        Err(InstallError::Path(PathError::Escapes(
            "node_modules/../evil".to_string()
        )))
    );
    assert!(matches!(
        parse_lockfile("{", "linux", "x86_64"),
        Err(InstallError::Json(_))
    ));
    assert_eq!(
        parse_lockfile(r#"{"lockfileVersion":3}"#, "linux", "x86_64"),
        Err(InstallError::Lock(LockError::NoPackages))
    );
}

#[test]
fn install_constraint_allows_follows_npm_os_cpu_rules() {
    let allows = |os: Option<&str>, host: &str| {
        let text = match os {
            Some(list) => format!(r#"{{"os":{list}}}"#),
            None => "{}".to_string(),
        };
        let entry = LockedPackage::from_entry("node_modules/x", &Json::parse(&text).unwrap());
        constraint_allows(&entry.os, host)
    };
    assert!(allows(None, "linux"), "no constraint allows all");
    assert!(allows(Some(r#"["linux"]"#), "linux"));
    assert!(!allows(Some(r#"["darwin"]"#), "linux"));
    assert!(allows(Some(r#"["darwin","linux"]"#), "linux"));
    assert!(allows(Some(r#"["!win32"]"#), "linux"));
    assert!(!allows(Some(r#"["!linux"]"#), "linux"));
}

fn planned(key: &str, bin: &[(&str, &str)]) -> PlannedPackage {
    PlannedPackage {
        key: key.to_string(),
        name: key
            .rsplit("node_modules/")
            .next()
            .unwrap_or(key)
            .to_string(),
        version: "1.0.0".into(),
        resolved: String::new(),
        integrity: None,
        bin: bin
            .iter()
            .map(|(n, p)| (n.to_string(), p.to_string()))
            .collect(),
    }
}

fn first_link_wins() {
    let plan = vec![
        planned("node_modules/@playwright/test", &[("playwright", "cli.js")]),
        planned("node_modules/playwright", &[("playwright", "cli.js")]),
        planned("node_modules/typescript", &[("tsc", "bin/tsc")]),
    ];
    let links = link_bins(&plan);
    assert!(links.failure.is_none());
    let target = |name: &str| {
        links
            .links
            .iter()
            .find(|l| l.name == name)
            .unwrap()
            .target()
    };
    assert_eq!(target("tsc"), "../typescript/bin/tsc");
    assert_eq!(target("playwright"), "../@playwright/test/cli.js");
    assert_eq!(links.links.len(), 2);
}

#[test]
fn install_link_bins_creates_relative_exec_symlinks_first_wins() {
    first_link_wins();
}

#[test]
fn lockfile_link_bins_creates_relative_exec_symlinks_first_wins() {
    first_link_wins();
}

#[test]
fn link_bins_rejects_a_traversing_bin_target() {
    let plan = vec![planned(
        "node_modules/evil",
        &[("evil", "../../../../../../tmp/pwned")],
    )];
    let links = link_bins(&plan);
    assert!(
        links.failure.is_some(),
        "a traversing bin target is rejected"
    );
    assert!(
        links.links.is_empty(),
        "no symlink is created for a traversing target"
    );
}

#[test]
fn link_bins_skips_bin_names_that_are_paths() {
    let plan = vec![planned(
        "node_modules/p",
        &[("../escape", "cli.js"), ("ok", "cli.js")],
    )];
    let links = link_bins(&plan);
    assert!(links.failure.is_none());
    assert_eq!(links.links.len(), 1);
    assert_eq!(links.links[0].name, "ok");
}

#[test]
fn link_bins_drops_leading_dots_and_passes_over_odd_names() {
    let plan = vec![
        planned("packages/local", &[("local", "cli.js")]),
        planned(
            "node_modules/p",
            &[(".", "a"), ("..", "b"), ("", "c"), ("x", "././bin/x.js")],
        ),
    ];
    let links = link_bins(&plan);
    assert!(links.failure.is_none());
    assert_eq!(links.links.len(), 1);
    assert_eq!(links.links[0].path, "p/bin/x.js");
    assert_eq!(links.links[0].target(), "../p/bin/x.js");
}

#[test]
fn a_lockfile_plan_is_for_web_tarballs_the_host_may_have() {
    let lock = Lockfile::parse(SAMPLE_LOCK).unwrap();
    let plan = plan_lockfile(&lock, "linux", "x86_64");
    let keys: Vec<&str> = plan.iter().map(|p| p.key.as_str()).collect();
    assert_eq!(keys, ["node_modules/@scope/pkg", "node_modules/typescript"]);
    assert_eq!(plan[0].integrity.as_deref(), Some("sha512-BBBB"));
    assert_eq!(
        plan[0].install_dir("/srv/app").unwrap(),
        "/srv/app/node_modules/@scope/pkg"
    );
    assert!(planned("node_modules/../../x", &[]).install_dir("/srv").is_err());
}

#[test]
fn an_installed_version_has_to_be_one() {
    let mut bad = planned("node_modules/x", &[]);
    bad.version = "nonsense".into();
    match installed_set(&vec![planned("node_modules/a", &[]), bad]) {
        Err(InstallError::Version {
            name,
            version,
            problem,
        }) => {
            assert_eq!(name, "x");
            assert_eq!(version, "nonsense");
            let e = InstallError::Version {
                name,
                version,
                problem,
            };
            assert!(
                e.message()
                    .starts_with("package `x`: invalid version \"nonsense\": "),
                "{}",
                e.message()
            );
        }
        other => panic!("expected a version error, got {other:?}"),
    }
    let set = installed_set(&vec![planned("node_modules/a", &[])]).unwrap();
    assert_eq!(set[0].name, "a");
    assert_eq!(set[0].version.to_string(), "1.0.0");
}

#[test]
fn root_requirements_pin_versions_and_refuse_other_sources() {
    let reqs = root_requirements(r#"{"dependencies":{"b":"1.2.3","a":"^2","n":7}}"#).unwrap();
    let got: Vec<(String, String)> = reqs
        .iter()
        .map(|(n, r)| (n.clone(), r.to_string()))
        .collect();
    assert_eq!(
        got,
        [
            ("b".to_string(), "=1.2.3".to_string()),
            ("a".to_string(), "^2".to_string())
        ]
    );
    let overridden = r#"{"dependencies":{"a":"^2"},"overrides":{"b":"1"}}"#;
    assert_eq!(
        root_requirements(overridden).unwrap_err(),
        InstallError::Overrides
    );
    let nothing = r#"{"dependencies":{"a":"^2"},"overrides":{}}"#;
    assert_eq!(root_requirements(nothing).unwrap().len(), 1);
    let none = root_requirements("{}").unwrap_err();
    assert_eq!(none, InstallError::NoDependencies);
    assert_eq!(none.message(), "no dependencies section in package.json");
    let git = root_requirements(r#"{"dependencies":{"g":"github:o/r"}}"#).unwrap_err();
    assert!(
        git.message()
            .starts_with("dependency `g`: unsupported version \"github:o/r\": "),
        "{}",
        git.message()
    );
    assert!(matches!(root_requirements("["), Err(InstallError::Json(_))));
}

fn resolved(name: &str, version: &str, integrity: &str) -> Resolved {
    let text = format!(
        r#"{{"versions":{{"{version}":{{"dist":{{"tarball":"https://r/{name}.tgz","integrity":"{integrity}"}}}}}}}}"#
    );
    Registry::npm()
        .resolve(name, &Range::any(), &Json::parse(&text).unwrap())
        .unwrap()
}

#[test]
fn a_marker_has_a_line_for_each_package() {
    let tree = vec![resolved("a", "1.0.0", "x"), resolved("@s/b", "2.1.0", "y")];
    assert_eq!(tree_marker(&tree), "a@1.0.0\n@s/b@2.1.0");
    assert_eq!(tree_marker(&Vec::new()), "");
    assert!(is_up_to_date(true, Some(" a@1.0.0\n"), "a@1.0.0"));
    assert!(!is_up_to_date(false, Some("a@1.0.0"), "a@1.0.0"));
    assert!(!is_up_to_date(true, None, "a@1.0.0"));
    assert!(!is_up_to_date(true, Some("a@1.0.1"), "a@1.0.0"));
}

fn tiny_tgz(files: &[(&str, &[u8])]) -> Vec<u8> {
    let mut b = tar::Builder::new(flate2::write::GzEncoder::new(
        Vec::new(),
        flate2::Compression::fast(),
    ));
    for (path, contents) in files {
        let mut h = tar::Header::new_gnu();
        h.set_size(contents.len() as u64);
        h.set_mode(0o644);
        h.set_entry_type(tar::EntryType::Regular);
        b.append_data(&mut h, *path, std::io::Cursor::new(*contents))
            .unwrap();
    }
    b.finish().unwrap();
    b.into_inner().unwrap().finish().unwrap()
}

fn sri(bytes: &[u8]) -> String {
    let digest = <sha2::Sha512 as sha2::Digest>::digest(bytes);
    format!(
        "sha512-{}",
        base64::Engine::encode(&base64::engine::general_purpose::STANDARD, digest)
    )
}

fn fresh() -> Event {
    Event::Checked {
        has_content: false,
        marker: None,
    }
}

#[test]
fn an_install_goes_from_check_to_marker() {
    let tgz = tiny_tgz(&[("package/cli.js", b"1")]);
    let mut package = planned("node_modules/tool", &[("tool", "./cli.js")]);
    package.resolved = "https://r/tool.tgz".into();
    package.integrity = Some(sri(&tgz));
    let mut install = Install::from_lockfile(&vec![package], "hash");
    assert_eq!(install.stage(), Stage::Checking);
    assert!(matches!(install.next(fresh()), Ok(Step::Clear)));
    match install.next(Event::Done) {
        Ok(Step::Fetch { url }) => assert_eq!(url, "https://r/tool.tgz"),
        other => panic!("expected a fetch, got {other:?}"),
    }
    match install.next(Event::Fetched(tgz)) {
        Ok(Step::Unpack { dir, plan }) => {
            assert_eq!(dir, "node_modules/tool");
            assert_eq!(
                plan.actions,
                vec![Action::WriteFile {
                    entry: 0,
                    path: "cli.js".to_string()
                }]
            );
        }
        other => panic!("expected an unpack, got {other:?}"),
    }
    match install.next(Event::Done) {
        Ok(Step::Link(link)) => {
            assert_eq!(link.name, "tool");
            assert_eq!(link.target(), "../tool/cli.js");
        }
        other => panic!("expected a link, got {other:?}"),
    }
    match install.next(Event::Done) {
        Ok(Step::Mark { want }) => assert_eq!(want, "hash"),
        other => panic!("expected the marker, got {other:?}"),
    }
    assert!(matches!(install.next(Event::Done), Ok(Step::Finish)));
    assert_eq!(install.stage(), Stage::Finished);
}

#[test]
fn an_install_that_is_marked_is_left_alone() {
    let mut install = Install::node_modules(&vec![resolved("a", "1.0.0", "x")]);
    let marked = Event::Checked {
        has_content: true,
        marker: Some("a@1.0.0\n".to_string()),
    };
    assert!(matches!(install.next(marked), Ok(Step::Finish)));

    let mut install = Install::node_modules(&vec![resolved("a", "1.0.0", "x")]);
    let other = Event::Checked {
        has_content: true,
        marker: Some("a@0.9.0".to_string()),
    };
    assert!(matches!(install.next(other), Ok(Step::Clear)));
}

#[test]
fn an_install_stops_at_bytes_that_do_not_match() {
    let tgz = tiny_tgz(&[("package/a.js", b"1")]);
    let mut install = Install::node_modules(&vec![resolved("a", "1.0.0", &sri(b"other"))]);
    assert!(matches!(install.next(fresh()), Ok(Step::Clear)));
    assert!(matches!(install.next(Event::Done), Ok(Step::Fetch { .. })));
    assert!(matches!(
        install.next(Event::Fetched(tgz)),
        Err(InstallError::Integrity(_))
    ));
    assert_eq!(install.stage(), Stage::Fetching(0));
}

#[test]
fn an_install_refuses_names_that_lead_out() {
    let mut install = Install::node_modules(&vec![resolved("../a", "1.0.0", "x")]);
    assert!(matches!(install.next(fresh()), Ok(Step::Clear)));
    assert_eq!(
        install.next(Event::Done).unwrap_err(),
        InstallError::Path(PathError::Escapes("../a".to_string()))
    );

    let plan = vec![planned("node_modules/evil", &[("evil", "../../x")])];
    let mut none = Install::from_lockfile(&Vec::new(), "w");
    assert!(matches!(none.next(fresh()), Ok(Step::Clear)));
    assert!(matches!(none.next(Event::Done), Ok(Step::Mark { .. })));

    let tgz = tiny_tgz(&[("package/a.js", b"1")]);
    let mut package = plan[0].clone();
    package.integrity = Some(sri(&tgz));
    let mut install = Install::from_lockfile(&vec![package], "w");
    assert!(install.next(fresh()).is_ok());
    assert!(install.next(Event::Done).is_ok());
    assert!(install.next(Event::Fetched(tgz)).is_ok());
    assert!(matches!(
        install.next(Event::Done),
        Err(InstallError::Path(_))
    ));
}

#[test]
fn a_tree_goes_into_node_modules_under_its_names() {
    let tgz = tiny_tgz(&[("package/a.js", b"1")]);
    let mut install = Install::node_modules(&vec![resolved("@s/a", "1.0.0", &sri(&tgz))]);
    assert!(install.next(fresh()).is_ok());
    assert!(install.next(Event::Done).is_ok());
    match install.next(Event::Fetched(tgz)) {
        Ok(Step::Unpack { dir, .. }) => assert_eq!(dir, "node_modules/@s/a"),
        other => panic!("expected an unpack, got {other:?}"),
    }
    match install.next(Event::Done) {
        Ok(Step::Mark { want }) => assert_eq!(want, "@s/a@1.0.0"),
        other => panic!("expected the marker, got {other:?}"),
    }
}
