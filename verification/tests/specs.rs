use npm_utils::package_json::spec::{version_req, Range, RangeError, Spec};
use npm_utils::version::{Version, VersionReq};

fn v(s: &str) -> Version {
    Version::parse(s).unwrap()
}

#[test]
fn spec_version_req_pins_bare_versions_and_parses_ranges() {
    assert_eq!(
        version_req("1.2.3").unwrap(),
        VersionReq::parse("=1.2.3").unwrap()
    );
    assert_eq!(
        version_req("^3.0.0").unwrap(),
        VersionReq::parse("^3.0.0").unwrap()
    );
    assert_eq!(version_req("*").unwrap(), VersionReq::star());
    assert_eq!(version_req("").unwrap(), VersionReq::star());
    assert_eq!(version_req("latest").unwrap(), VersionReq::star());
    let exact = version_req("1.2.3").unwrap();
    assert!(exact.matches(&v("1.2.3")));
    assert!(!exact.matches(&v("1.2.4")));
}

#[test]
fn range_handles_or_and_space_separated_alternatives() {
    let r = Range::parse("^1.6.2 || ^2.1.0").unwrap();
    assert!(r.matches(&v("1.6.2")));
    assert!(r.matches(&v("1.9.0")));
    assert!(r.matches(&v("2.1.0")));
    assert!(
        !r.matches(&v("2.0.0")),
        "below the ^2.1.0 alternative's floor"
    );
    assert!(!r.matches(&v("3.0.0")));

    let and = Range::parse(">=1.6.2 <2.0.0").unwrap();
    assert!(and.matches(&v("1.9.0")));
    assert!(!and.matches(&v("2.0.0")));

    assert!(Range::parse("1.2.3").unwrap().matches(&v("1.2.3")));
    assert!(!Range::parse("1.2.3").unwrap().matches(&v("1.2.4")));
    assert!(Range::any().matches(&v("9.9.9")));
    assert!(Range::parse("*").unwrap().matches(&v("9.9.9")));
}

#[test]
fn rejects_dist_tags_with_a_clear_message() {
    assert!(Range::parse("latest").is_ok());
    for tag in ["next", "beta", "canary"] {
        let err = Range::parse(tag).unwrap_err().message();
        assert!(
            err.contains("dist-tag"),
            "{tag:?} should give a dist-tag error, got: {err}"
        );
    }
    assert!(Range::parse("^1.2.3").is_ok());
}

#[test]
fn spec_classifies_registry_versions_ranges_and_tags() {
    for s in [
        "^1.2.3", "1.2.3", ">=1 <2", "~1.2.3", "*", "", "latest", "next",
    ] {
        assert!(matches!(Spec::parse(s), Spec::Registry(_)), "{s:?}");
        assert!(Spec::parse(s).is_registry(), "{s:?}");
    }
    assert_eq!(Spec::parse(">=1 <2"), Spec::Registry(">=1 <2".into()));
    assert_eq!(Spec::parse("latest"), Spec::Registry("latest".into()));
}

#[test]
fn spec_classifies_npm_alias_to_its_inner_spec() {
    match Spec::parse("npm:@scope/pkg@^1.2.3") {
        Spec::Alias { name, spec } => {
            assert_eq!(name, "@scope/pkg");
            assert_eq!(*spec, Spec::Registry("^1.2.3".into()));
        }
        other => panic!("expected alias, got {other:?}"),
    }
    assert!(Spec::parse("npm:left-pad@1.0.0").is_registry());
}

#[test]
fn spec_classifies_git_sources_with_committish() {
    for s in [
        "git+https://github.com/npm/cli.git",
        "git+ssh://git@github.com/npm/cli.git",
        "git://github.com/npm/cli.git",
        "github:npm/cli",
        "gitlab:owner/repo",
        "bitbucket:owner/repo",
        "npm/cli",
    ] {
        assert!(matches!(Spec::parse(s), Spec::Git { .. }), "{s}");
        assert!(!Spec::parse(s).is_registry(), "{s}");
    }
    match Spec::parse("npm/cli#v6.0.0") {
        Spec::Git { source, committish } => {
            assert_eq!(source, "npm/cli");
            assert_eq!(committish.as_deref(), Some("v6.0.0"));
        }
        other => panic!("expected git, got {other:?}"),
    }
}

#[test]
fn spec_classifies_remote_tarballs_and_local_paths() {
    assert!(matches!(
        Spec::parse("https://registry.npmjs.org/semver/-/semver-1.0.0.tgz"),
        Spec::Tarball(_)
    ));
    for p in ["file:../local", "./pkg", "../pkg", "/abs/pkg", "~/pkg"] {
        assert!(matches!(Spec::parse(p), Spec::Path(_)), "{p}");
        assert!(!Spec::parse(p).is_registry(), "{p}");
    }
}

#[test]
fn an_alias_of_an_alias_leads_to_the_registry() {
    assert!(Spec::parse("npm:a@npm:b@^1").is_registry());
    assert!(!Spec::parse("npm:a@github:o/r").is_registry());
    match Spec::parse("npm:left-pad") {
        Spec::Alias { name, .. } => assert_eq!(name, "left-pad"),
        other => panic!("expected alias, got {other:?}"),
    }
}

#[test]
fn range_errors_tell_tags_from_comparators() {
    match Range::parse("next") {
        Err(RangeError::DistTag(tag)) => assert_eq!(tag, "next"),
        other => panic!("expected a tag, got {other:?}"),
    }
    match Range::parse("^^1") {
        Err(RangeError::Comparators(message)) => assert!(!message.is_empty()),
        other => panic!("expected a comparator error, got {other:?}"),
    }
    assert!(version_req("^^1").is_err());
}

#[test]
fn a_pin_keeps_the_release_and_nothing_else() {
    let pin = Range::parse("1.2.3-beta.1+build.5").unwrap();
    assert!(pin.matches(&v("1.2.3-beta.1")));
    assert!(pin.matches(&v("1.2.3-beta.1+other")));
    assert!(!pin.matches(&v("1.2.3-beta.2")));
    assert!(!pin.matches(&v("1.2.3")));
    assert!(!Range::any().matches(&v("1.0.0-alpha")));
}

#[test]
fn versions_are_ordered_and_written_as_they_read() {
    assert!(v("1.9.0").at_most(&v("1.10.0")));
    assert!(!v("1.10.0").at_most(&v("1.9.0")));
    assert!(v("1.0.0-alpha").at_most(&v("1.0.0")));
    assert!(!v("1.0.0").at_most(&v("1.0.0-alpha")));
    assert!(v("1.0.0-alpha.2").at_most(&v("1.0.0-alpha.11")));
    for s in ["0.0.1", "10.20.30", "1.0.0-rc.1", "1.0.0+build.7", "1.2.3-a+b"] {
        assert_eq!(v(s).to_string(), s);
        assert_eq!(v(s).copy().to_string(), s);
    }
    assert!(Version::parse("1.2").is_err());
}

#[test]
fn ranges_are_written_with_their_alternatives() {
    assert_eq!(
        Range::parse("^1.6.2 || ^2.1.0").unwrap().to_string(),
        "^1.6.2 || ^2.1.0"
    );
    assert_eq!(
        Range::parse(">=1.6.2 <2.0.0").unwrap().to_string(),
        ">=1.6.2, <2.0.0"
    );
    assert_eq!(Range::parse("1.2.3").unwrap().to_string(), "=1.2.3");
    assert_eq!(Range::any().copy().to_string(), "*");
    assert_eq!(
        Range::from_req(VersionReq::parse("~1").unwrap()).to_string(),
        "~1"
    );
    let parsed: Range = "^3".parse().unwrap();
    assert_eq!(parsed.to_string(), "^3");
}

#[test]
fn classifies_registry_versions_ranges_and_tags() {
    for s in [
        "^1.2.3", "1.2.3", ">=1 <2", "~1.2.3", "*", "", "latest", "next",
    ] {
        assert!(matches!(Spec::parse(s), Spec::Registry(_)), "{s:?}");
        assert!(Spec::parse(s).is_registry(), "{s:?}");
    }
    assert_eq!(Spec::parse(">=1 <2"), Spec::Registry(">=1 <2".into()));
    assert_eq!(Spec::parse("latest"), Spec::Registry("latest".into()));
}

#[test]
fn classifies_npm_alias_to_its_inner_spec() {
    match Spec::parse("npm:@scope/pkg@^1.2.3") {
        Spec::Alias { name, spec } => {
            assert_eq!(name, "@scope/pkg");
            assert_eq!(*spec, Spec::Registry("^1.2.3".into()));
        }
        other => panic!("expected alias, got {other:?}"),
    }
    assert!(Spec::parse("npm:left-pad@1.0.0").is_registry());
}

#[test]
fn classifies_git_sources_with_committish() {
    for s in [
        "git+https://github.com/npm/cli.git",
        "git+ssh://git@github.com/npm/cli.git",
        "git://github.com/npm/cli.git",
        "github:npm/cli",
        "gitlab:owner/repo",
        "bitbucket:owner/repo",
        "npm/cli",
    ] {
        assert!(matches!(Spec::parse(s), Spec::Git { .. }), "{s}");
        assert!(!Spec::parse(s).is_registry(), "{s}");
    }
    match Spec::parse("npm/cli#v6.0.0") {
        Spec::Git { source, committish } => {
            assert_eq!(source, "npm/cli");
            assert_eq!(committish.as_deref(), Some("v6.0.0"));
        }
        other => panic!("expected git, got {other:?}"),
    }
}

#[test]
fn classifies_remote_tarballs_and_local_paths() {
    assert!(matches!(
        Spec::parse("https://registry.npmjs.org/semver/-/semver-1.0.0.tgz"),
        Spec::Tarball(_)
    ));
    for p in ["file:../local", "./pkg", "../pkg", "/abs/pkg", "~/pkg"] {
        assert!(matches!(Spec::parse(p), Spec::Path(_)), "{p}");
        assert!(!Spec::parse(p).is_registry(), "{p}");
    }
}

#[test]
fn version_req_pins_bare_versions_and_parses_ranges() {
    assert_eq!(
        version_req("1.2.3").unwrap(),
        VersionReq::parse("=1.2.3").unwrap()
    );
    assert_eq!(
        version_req("^3.0.0").unwrap(),
        VersionReq::parse("^3.0.0").unwrap()
    );
    assert_eq!(version_req("*").unwrap(), VersionReq::star());
    assert_eq!(version_req("").unwrap(), VersionReq::star());
    assert_eq!(version_req("latest").unwrap(), VersionReq::star());
    let exact = version_req("1.2.3").unwrap();
    assert!(exact.matches(&v("1.2.3")));
    assert!(!exact.matches(&v("1.2.4")));
}

#[test]
fn a_specifier_is_cloned_with_what_it_holds() {
    for text in ["^1", "npm:a@npm:b@2", "github:o/r#v1", "https://h/x.tgz", "file:../a"] {
        let spec = Spec::parse(text);
        assert_eq!(spec.clone(), spec, "{text}");
    }
}
