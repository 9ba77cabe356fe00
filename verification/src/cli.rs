//! What the command line tool decides: how its arguments are understood, where licenses come
//! from, and what it prints.

use crate::audit::Severity;
use crate::json::json_reading;
use crate::package_json::{license_in, License, PackageJson};
use crate::project::{Change, ChangeView};
use crate::registry::{PackumentDetail, Resolved, ResolvedView};
use crate::sbom::{Component, ComponentView};
use crate::text::{
    after_last, cut_at_last, decimal, decimal_of, joined, joined3, last_piece, rsplit_once, same,
};
use crate::version::{version_text, Version};
use vstd::prelude::*;
use vstd::std_specs::convert::FromSpecImpl;
use vstd::string::*;

verus! {

/// A package argument taken apart: what stands before the last `@` and behind it, or the whole
/// as a name where nothing stands before it.
pub open spec fn name_and_range(pkg: Seq<char>) -> (Seq<char>, Option<Seq<char>>) {
    match cut_at_last(pkg, "@"@) {
        Some((name, range)) => if name.len() > 0 {
            (name, Some(range))
        } else {
            (pkg, None)
        },
        None => (pkg, None),
    }
}

/// Takes `name@range` apart. The `@` of a scope is part of the name.
pub fn split_name_range(pkg: &str) -> (r: (String, Option<String>))
    ensures
        (r.0@, r.1.deep_view()) == name_and_range(pkg@),
{
    match rsplit_once(pkg, "@") {
        Some((name, range)) => if name.unicode_len() > 0 {
            (name, Some(range))
        } else {
            (pkg.to_owned(), None)
        },
        None => (pkg.to_owned(), None),
    }
}

/// Whether the lockfile is to record licenses.
#[derive(Debug, Clone, Copy, PartialEq, Eq)]
pub struct LicenseOpts {
    pub no_skip_license: bool,
    pub skip_license: bool,
}

impl LicenseOpts {
    /// How much of the metadata is needed: all of it, unless licenses are to be skipped.
    pub fn detail(&self) -> (r: PackumentDetail)
        ensures
            r == (if self.skip_license && !self.no_skip_license {
                PackumentDetail::Abbreviated
            } else {
                PackumentDetail::Full
            }),
    {
        if self.skip_license && !self.no_skip_license {
            PackumentDetail::Abbreviated
        } else {
            PackumentDetail::Full
        }
    }
}

/// Arguments without the name of the subcommand, which cargo passes on as the first of them.
pub open spec fn without_cargo_prefix(args: Seq<Seq<char>>) -> Seq<Seq<char>> {
    if args.len() > 1 && args[1] == "npm-utils"@ {
        args.remove(1)
    } else {
        args
    }
}

/// Drops the name of the subcommand, which cargo passes on as the first argument.
pub fn strip_cargo_prefix(args: Vec<String>) -> (r: Vec<String>)
    ensures
        r.deep_view() == without_cargo_prefix(args.deep_view()),
{
    let mut args = args;
    if args.len() > 1 && same(args[1].as_str(), "npm-utils") {
        let ghost before = args.deep_view();
        args.remove(1);
        assert(args.deep_view() =~= before.remove(1));
    }
    args
}

/// The least severity for which an audit fails.
#[derive(Debug, Clone, Copy, PartialEq, Eq)]
pub enum AuditLevel {
    Low,
    Moderate,
    High,
    Critical,
}

impl FromSpecImpl<AuditLevel> for Severity {
    open spec fn obeys_from_spec() -> bool {
        true
    }

    open spec fn from_spec(level: AuditLevel) -> Severity {
        match level {
            AuditLevel::Low => Severity::Low,
            AuditLevel::Moderate => Severity::Moderate,
            AuditLevel::High => Severity::High,
            AuditLevel::Critical => Severity::Critical,
        }
    }
}

impl From<AuditLevel> for Severity {
    fn from(level: AuditLevel) -> (r: Severity) {
        match level {
            AuditLevel::Low => Severity::Low,
            AuditLevel::Moderate => Severity::Moderate,
            AuditLevel::High => Severity::High,
            AuditLevel::Critical => Severity::Critical,
        }
    }
}

/// Where advisories come from.
#[derive(Debug, Clone, Copy, PartialEq, Eq, Structural)]
pub enum SourceKind {
    Npm,
    Osv,
}

/// The sources to ask: those that were named, or both where none was.
pub fn build_sources(sources: Option<&[SourceKind]>) -> (r: Vec<SourceKind>)
    ensures
        r@ == (match sources {
            Some(named) => if named@.len() > 0 {
                named@
            } else {
                seq![SourceKind::Npm, SourceKind::Osv]
            },
            None => seq![SourceKind::Npm, SourceKind::Osv],
        }),
{
    let mut out: Vec<SourceKind> = Vec::new();
    if let Some(named) = sources {
        if named.len() > 0 {
            let mut i: usize = 0;
            while i < named.len()
                invariant
                    i <= named@.len(),
                    out@ == named@.take(i as int),
                decreases named@.len() - i,
            {
                out.push(named[i]);
                assert(named@.take(i + 1) =~= named@.take(i as int).push(named@[i as int]));
                i += 1;
            }
            assert(named@.take(named@.len() as int) =~= named@);
            return out;
        }
    }
    out.push(SourceKind::Npm);
    out.push(SourceKind::Osv);
    assert(out@ =~= seq![SourceKind::Npm, SourceKind::Osv]);
    out
}

/// Where a bill of materials has the licenses from.
#[derive(Debug, Clone, Copy, PartialEq, Eq, Structural)]
pub enum LicenseSource {
    /// The lockfile, and the installed package where it has none.
    Auto,
    /// The lockfile alone.
    Lockfile,
    /// The installed package, and the lockfile where it has none.
    Package,
}

/// Whether the installed package is asked for its license, where the lockfile has `license`.
pub open spec fn asks_package(source: LicenseSource, license: Option<Seq<char>>) -> bool {
    match source {
        LicenseSource::Auto => license is None,
        LicenseSource::Lockfile => false,
        LicenseSource::Package => true,
    }
}

/// Whether the installed package is asked for its license.
pub fn wants_package(source: LicenseSource, component: &Component) -> (r: bool)
    ensures
        r == asks_package(source, component.deep_view().license),
{
    match source {
        LicenseSource::Auto => component.license.is_none(),
        LicenseSource::Lockfile => false,
        LicenseSource::Package => true,
    }
}

/// A component with the license that its installed package has, where that is asked and has
/// one.
pub open spec fn enriched(
    component: ComponentView,
    installed: Option<Seq<char>>,
    source: LicenseSource,
) -> ComponentView {
    if asks_package(source, component.license) && installed is Some {
        ComponentView { license: installed, ..component }
    } else {
        component
    }
}

/// Puts in the licenses of installed packages, each at the place of its component, as far as
/// they are asked for.
pub fn enrich_licenses(
    components: &mut Vec<Component>,
    installed: &Vec<Option<String>>,
    source: LicenseSource,
)
    requires
        installed@.len() == old(components)@.len(),
    ensures
        final(components)@.len() == old(components)@.len(),
        forall|i: int|
            0 <= i < old(components)@.len() ==> (#[trigger] final(components).deep_view()[i])
                == enriched(old(components).deep_view()[i], installed.deep_view()[i], source),
{
    let ghost start = components.deep_view();
    let mut i: usize = 0;
    while i < components.len()
        invariant
            i <= components@.len(),
            start.len() == components@.len(),
            installed@.len() == components@.len(),
            forall|j: int|
                0 <= j < i ==> (#[trigger] components.deep_view()[j]) == enriched(
                    start[j],
                    installed.deep_view()[j],
                    source,
                ),
            forall|j: int| i <= j < start.len() ==> #[trigger] components.deep_view()[j] == start[j],
        decreases components@.len() - i,
    {
        let ghost before = components.deep_view();
        assert(before[i as int] == components@[i as int].deep_view());
        assert(installed.deep_view()[i as int] == installed@[i as int].deep_view());
        if wants_package(source, &components[i]) {
            if let Some(license) = &installed[i] {
                let mut component = components[i].copy();
                component.license = Some(license.clone());
                let ghost v = component.deep_view();
                components[i] = component;
                assert(components.deep_view() =~= before.update(i as int, v));
            }
        }
        i += 1;
    }
}

/// The license that the manifest of an installed package declares, where there is one and it
/// can be read.
pub open spec fn manifest_license(text: Option<Seq<char>>) -> Option<Seq<char>> {
    match text {
        Some(t) => match json_reading(t) {
            Ok(doc) => license_in(doc),
            Err(_) => None,
        },
        None => None,
    }
}

/// The license that the manifest of an installed package declares, where there is one and it
/// can be read.
pub fn package_license(text: Option<&str>) -> (r: Option<String>)
    ensures
        r.deep_view() == manifest_license(text.deep_view()),
{
    match text {
        Some(t) => match PackageJson::from_json(t) {
            Ok(package) => package.license(),
            Err(_) => None,
        },
        None => None,
    }
}

/// The name of the file that a tarball is downloaded to: the package name without its scope,
/// and the version.
pub fn download_name(name: &str, version: &Version) -> (r: String)
    ensures
        r@ == last_piece(name@, "/"@) + "-"@ + version_text(version.deep_view()) + ".tgz"@,
{
    let mut out = joined3(after_last(name, "/").as_str(), "-", version.to_string().as_str());
    out.append(".tgz");
    out
}

/// The namespace of an SPDX document.
pub fn spdx_namespace(app: &str, created: &str) -> (r: String)
    ensures
        r@ == "https://spdx.org/spdxdocs/"@ + app@ + "-"@ + created@,
{
    let mut out = joined3("https://spdx.org/spdxdocs/", app, "-");
    out.append(created);
    out
}

/// The range under which a package is added for which none is given: the version that was
/// found, and what is compatible with it.
pub fn caret_range(version: &Version) -> (r: String)
    ensures
        r@ == "^"@ + version_text(version.deep_view()),
{
    joined("^", version.to_string().as_str())
}

/// The name of a project by that of its directory, or `app` where that has none.
pub fn default_name(directory: Option<&str>) -> (r: String)
    ensures
        r@ == (match directory {
            Some(name) => if name@.len() > 0 {
                name@
            } else {
                "app"@
            },
            None => "app"@,
        }),
{
    match directory {
        Some(name) => if name.unicode_len() > 0 {
            name.to_owned()
        } else {
            "app".to_owned()
        },
        None => "app".to_owned(),
    }
}

/// A line for each package that was installed.
pub open spec fn installed_lines(installed: Seq<ResolvedView>) -> Seq<char>
    decreases installed.len(),
{
    if installed.len() == 0 {
        ""@
    } else {
        let last = installed.last();
        installed_lines(installed.drop_last()) + "  "@ + last.name + "@"@ + version_text(
            last.version,
        ) + "\n"@
    }
}

/// What is printed after an install: how many packages, and each with its version.
pub fn report_installed(installed: &Vec<Resolved>) -> (r: String)
    ensures
        r@ == "installed "@ + decimal_of(installed@.len()) + " package(s)\n"@ + installed_lines(
            installed.deep_view(),
        ),
{
    let ghost all = installed.deep_view();
    let count: u64 = installed.len() as u64;
    let mut lines = "".to_owned();
    let mut i: usize = 0;
    while i < installed.len()
        invariant
            i <= installed@.len(),
            all == installed.deep_view(),
            lines@ == installed_lines(all.take(i as int)),
        decreases installed@.len() - i,
    {
        let p = &installed[i];
        assert(all.take(i + 1).drop_last() =~= all.take(i as int));
        assert(all[i as int] == p.deep_view());
        lines.append("  ");
        lines.append(p.name.as_str());
        lines.append("@");
        lines.append(p.version.to_string().as_str());
        lines.append("\n");
        i += 1;
    }
    assert(all.take(all.len() as int) =~= all);
    let mut out = joined3("installed ", decimal(count).as_str(), " package(s)\n");
    out.append(lines.as_str());
    out
}

/// What is printed of a package that was resolved: its version, tarball and integrity.
pub fn report_resolved(resolved: &Resolved) -> (r: String)
    ensures
        ({
            let v = resolved.deep_view();
            let integrity = match v.integrity {
                Some(sri) => sri,
                None => "(none published)"@,
            };
            r@ == v.name + "@"@ + version_text(v.version) + "\n"@ + "  tarball:   "@
                + v.tarball_url + "\n"@ + "  integrity: "@ + integrity + "\n"@
        }),
{
    let mut out = joined3(resolved.name.as_str(), "@", resolved.version.to_string().as_str());
    out.append("\n");
    out.append("  tarball:   ");
    out.append(resolved.tarball_url.as_str());
    out.append("\n");
    out.append("  integrity: ");
    match &resolved.integrity {
        Some(sri) => out.append(sri.as_str()),
        None => out.append("(none published)"),
    }
    out.append("\n");
    out
}

/// A line for each change of an upgrade.
pub open spec fn change_lines(changes: Seq<ChangeView>) -> Seq<char>
    decreases changes.len(),
{
    if changes.len() == 0 {
        ""@
    } else {
        let last = changes.last();
        change_lines(changes.drop_last()) + last.name + ": "@ + last.from + " → "@ + last.to
            + "\n"@
    }
}

/// What is printed of an upgrade: each dependency with its range before and after.
pub fn report_changes(changes: &Vec<Change>) -> (r: String)
    ensures
        r@ == change_lines(changes.deep_view()),
{
    let ghost all = changes.deep_view();
    let mut out = "".to_owned();
    let mut i: usize = 0;
    while i < changes.len()
        invariant
            i <= changes@.len(),
            all == changes.deep_view(),
            out@ == change_lines(all.take(i as int)),
        decreases changes@.len() - i,
    {
        let c = &changes[i];
        assert(all.take(i + 1).drop_last() =~= all.take(i as int));
        assert(all[i as int] == c.deep_view());
        out.append(c.name.as_str());
        out.append(": ");
        out.append(c.from.as_str());
        out.append(" → ");
        out.append(c.to.as_str());
        out.append("\n");
        i += 1;
    }
    assert(all.take(all.len() as int) =~= all);
    out
}

} // verus!
