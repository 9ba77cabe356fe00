use npm_utils::json::Json;
use npm_utils::package_json::lock::{
    constraint_allows, lock_document, render_v3, LockError, LockedPackage, Lockfile,
};
use npm_utils::package_json::spec::Range;
use npm_utils::registry::{Registry, Resolved};

const SAMPLE_LOCK: &str = r#"{
  "name": "harness",
  "lockfileVersion": 3,
  "packages": {
    "": { "name": "harness", "devDependencies": { "typescript": "^5" } },
    "node_modules/@scope/pkg": {
      "version": "1.2.3",
      "resolved": "https://registry.npmjs.org/@scope/pkg/-/pkg-1.2.3.tgz",
      "integrity": "sha512-BBBB"
    },
    "node_modules/typescript": {
      "version": "5.9.3",
      "resolved": "https://registry.npmjs.org/typescript/-/typescript-5.9.3.tgz",
      "integrity": "sha512-AAAA",
      "dev": true,
      "bin": { "tsc": "bin/tsc", "tsserver": "bin/tsserver" }
    },
    "node_modules/fsevents": {
      "version": "2.3.2",
      "resolved": "https://registry.npmjs.org/fsevents/-/fsevents-2.3.2.tgz",
      "integrity": "sha512-CCCC",
      "dev": true,
      "optional": true,
      "os": ["darwin"]
    },
    "node_modules/local-link": { "resolved": "file:../local", "link": true }
  }
}"#;

fn names(packages: &[&LockedPackage]) -> Vec<String> {
    packages.iter().map(|p| p.name.clone()).collect()
}

fn strings(xs: &[&str]) -> Vec<String> {
    xs.iter().map(|s| s.to_string()).collect()
}

#[test]
fn parses_fields_and_selects_installable_per_host() {
    let lock = Lockfile::parse(SAMPLE_LOCK).unwrap();
    assert_eq!(lock.version, 3);
    assert_eq!(
        names(&lock.installable("linux", "x86_64")),
        ["@scope/pkg", "typescript"]
    );
    assert_eq!(
        names(&lock.installable("macos", "aarch64")),
        ["@scope/pkg", "fsevents", "typescript"]
    );
    let ts = lock
        .packages
        .iter()
        .find(|p| p.name == "typescript")
        .unwrap();
    assert!(ts.dev);
    assert_eq!(ts.integrity.as_deref(), Some("sha512-AAAA"));
    assert!(ts.bin.iter().any(|(n, p)| n == "tsc" && p == "bin/tsc"));
    assert!(ts.bin.iter().any(|(n, _)| n == "tsserver"));
    assert!(lock.packages.iter().any(|p| p.link));
}

#[test]
fn distinguishes_registry_tarballs_from_other_sources() {
    let lock = Lockfile::parse(SAMPLE_LOCK).unwrap();
    let ts = lock
        .packages
        .iter()
        .find(|p| p.name == "typescript")
        .unwrap();
    assert!(
        ts.is_registry_tarball(),
        "https resolved is a registry tarball"
    );
    let link = lock.packages.iter().find(|p| p.link).unwrap();
    assert!(!link.is_registry_tarball(), "a file: link is not");
}

#[test]
fn rejects_lockfile_version_1() {
    assert!(Lockfile::parse(r#"{"lockfileVersion":1,"dependencies":{}}"#).is_err());
}

#[test]
fn lock_constraint_allows_follows_npm_os_cpu_rules() {
    assert!(constraint_allows(&[], "linux"), "no constraint allows all");
    assert!(constraint_allows(&strings(&["linux"]), "linux"));
    assert!(!constraint_allows(&strings(&["darwin"]), "linux"));
    assert!(constraint_allows(&strings(&["darwin", "linux"]), "linux"));
    assert!(constraint_allows(&strings(&["!win32"]), "linux"));
    assert!(!constraint_allows(&strings(&["!linux"]), "linux"));
}

#[test]
fn an_exclusion_wins_over_a_match() {
    assert!(!constraint_allows(&strings(&["linux", "!linux"]), "linux"));
    assert!(!constraint_allows(&strings(&["!linux", "linux"]), "linux"));
    assert!(!constraint_allows(&strings(&["!win32", "darwin"]), "linux"));
}

#[test]
fn matches_platform_maps_rust_host_to_npm_spelling() {
    let lock = Lockfile::parse(SAMPLE_LOCK).unwrap();
    let fsevents = lock.packages.iter().find(|p| p.name == "fsevents").unwrap();
    assert!(!fsevents.matches_platform("linux", "x86_64"));
    assert!(fsevents.matches_platform("macos", "aarch64"));
}

#[test]
fn matches_platform_maps_every_renamed_host() {
    let entry = |os: &str, cpu: &str| {
        let text = format!(r#"{{"os":["{os}"],"cpu":["{cpu}"]}}"#);
        LockedPackage::from_entry("node_modules/x", &Json::parse(&text).unwrap())
    };
    assert!(entry("win32", "ia32").matches_platform("windows", "x86"));
    assert!(entry("linux", "x64").matches_platform("linux", "x86_64"));
    assert!(entry("darwin", "arm64").matches_platform("macos", "aarch64"));
    assert!(!entry("linux", "arm64").matches_platform("linux", "x86_64"));
}

#[test]
fn lockfile_errors_say_what_is_wrong() {
    match Lockfile::parse(r#"{"lockfileVersion":1}"#) {
        Err(e) => {
            assert_eq!(e, LockError::Unsupported(1));
            assert_eq!(
                e.message(),
                "package-lock.json lockfileVersion 1 is unsupported (need 2 or 3, which carry \
                 the `packages` map)"
            );
        }
        Ok(_) => panic!("version 1 was read"),
    }
    match Lockfile::parse(r#"{"lockfileVersion":3}"#) {
        Err(e) => {
            assert_eq!(e, LockError::NoPackages);
            assert_eq!(e.message(), "package-lock.json has no `packages` map");
        }
        Ok(_) => panic!("a lockfile without packages was read"),
    }
    match Lockfile::parse("{") {
        Err(LockError::Json(message)) => assert!(message.contains("EOF"), "{message}"),
        other => panic!("expected a JSON error, got {other:?}"),
    }
    // No version reads as version 0.
    assert!(matches!(
        Lockfile::parse(r#"{"packages":{}}"#),
        Err(LockError::Unsupported(0))
    ));
}

#[test]
fn names_come_from_behind_the_last_node_modules() {
    let lock = Lockfile::parse(
        r#"{"lockfileVersion":2,"packages":{
            "node_modules/a/node_modules/@s/b": {"version":"1.0.0","bin":"cli.js"},
            "node_modules/a": {"version":"2.0.0"},
            "packages/local": {"version":"3.0.0"},
            "node_modules/skipped": "no object"
        }}"#,
    )
    .unwrap();
    assert_eq!(lock.version, 2);
    let keys: Vec<&str> = lock.packages.iter().map(|p| p.key.as_str()).collect();
    assert_eq!(
        keys,
        [
            "node_modules/a",
            "node_modules/a/node_modules/@s/b",
            "packages/local"
        ]
    );
    assert_eq!(lock.packages[1].name, "@s/b");
    // A single executable takes the name without the scope.
    assert_eq!(
        lock.packages[1].bin,
        vec![("b".to_string(), "cli.js".to_string())]
    );
    assert_eq!(lock.packages[2].name, "packages/local");
    assert_eq!(names(&lock.installable("linux", "x86_64")), ["a", "@s/b"]);
}

#[test]
fn licenses_of_lockfile_entries_are_normalized() {
    let entry = |text: &str| {
        LockedPackage::from_entry("node_modules/x", &Json::parse(text).unwrap()).license
    };
    assert_eq!(entry(r#"{"license":"MIT"}"#).as_deref(), Some("MIT"));
    assert_eq!(
        entry(r#"{"licenses":[{"type":"MIT"},{"type":"ISC"}]}"#).as_deref(),
        Some("MIT OR ISC")
    );
    assert_eq!(entry("{}"), None);
}

fn resolved(name: &str, version: &str, integrity: &str, license: &str) -> Resolved {
    let text = format!(
        r#"{{"versions":{{"{version}":{{"license":"{license}","dist":{{
            "tarball":"https://r/{name}-{version}.tgz","integrity":"{integrity}"}}}}}}}}"#
    );
    Registry::npm()
        .resolve(name, &Range::any(), &Json::parse(&text).unwrap())
        .unwrap()
}

#[test]
fn a_rendered_lock_reads_back_and_installs_its_tree() {
    let manifest = Json::parse(
        r#"{"name":"app","version":"1.0.0","dependencies":{"b":"^2","a":"^1"},"scripts":{}}"#,
    )
    .unwrap();
    let tree = vec![
        resolved("@s/a", "1.5.0", "sha512-AA", "MIT"),
        resolved("b", "2.0.1", "sha512-BB", "ISC"),
    ];
    let text = render_v3(&manifest, &tree);
    assert!(text.ends_with("}\n"));
    assert!(text.contains("\n  \"lockfileVersion\": 3,\n"), "{text}");
    assert_eq!(Json::parse(&text).unwrap(), lock_document(&manifest, &tree));

    let lock = Lockfile::parse(&text).unwrap();
    assert_eq!(lock.version, 3);
    let keys: Vec<&str> = lock.packages.iter().map(|p| p.key.as_str()).collect();
    assert_eq!(keys, ["", "node_modules/@s/a", "node_modules/b"]);
    assert_eq!(lock.packages[1].name, "@s/a");
    assert_eq!(lock.packages[1].version, "1.5.0");
    assert_eq!(lock.packages[1].license.as_deref(), Some("MIT"));
    assert_eq!(
        lock.packages[2].resolved.as_deref(),
        Some("https://r/b-2.0.1.tgz")
    );
    assert_eq!(lock.packages[2].integrity.as_deref(), Some("sha512-BB"));

    let plan = npm_utils::install::plan_lockfile(&lock, "windows", "aarch64");
    let installed = npm_utils::install::installed_set(&plan).unwrap();
    let got: Vec<String> = installed
        .iter()
        .map(|r| format!("{}@{} {}", r.name, r.version.to_string(), r.tarball_url))
        .collect();
    assert_eq!(
        got,
        [
            "@s/a@1.5.0 https://r/@s/a-1.5.0.tgz",
            "b@2.0.1 https://r/b-2.0.1.tgz"
        ]
    );

    let bill = npm_utils::sbom::components(&lock);
    let listed: Vec<String> = bill
        .iter()
        .map(|c| format!("{} {} {:?} {:?}", c.name, c.version, c.license, c.integrity))
        .collect();
    assert_eq!(
        listed,
        [
            "@s/a 1.5.0 Some(\"MIT\") Some(\"sha512-AA\")",
            "b 2.0.1 Some(\"ISC\") Some(\"sha512-BB\")"
        ]
    );
}

#[test]
fn a_rendered_root_lists_the_dependencies_in_order() {
    let manifest =
        Json::parse(r#"{"name":"app","dependencies":{"b":"^2","a":"^1","odd":1}}"#).unwrap();
    let doc = lock_document(&manifest, &Vec::new());
    let root = doc.get("packages").unwrap().get("").unwrap();
    assert_eq!(root.text("name"), Some("app"));
    assert_eq!(root.text("version"), None);
    let deps: Vec<&str> = root
        .members("dependencies")
        .unwrap()
        .iter()
        .map(|(n, _)| n.as_str())
        .collect();
    assert_eq!(deps, ["a", "b"]);
}
