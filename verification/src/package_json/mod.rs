//! Manifests, lockfiles and the grammar of dependency specifiers.

pub mod deps;
pub mod exports;
pub mod lock;
pub mod manifest;
pub mod render;
pub mod spec;

pub use deps::{parse_dependencies, Dependencies, Dependency};
pub use exports::{Entry, PackageJson, PackageType};

use crate::json::{Json, JsonView};
use crate::text::{join, join_texts};
use vstd::prelude::*;

verus! {

/// The `type` of a legacy license declaration.
pub open spec fn license_type() -> spec_fn(JsonView) -> Option<Seq<char>> {
    |l: JsonView| l.text("type"@)
}

/// The license that a manifest, a lockfile entry or a registry entry declares: its
/// `license` where that is a text, the `type` of its `license`, or the types of its
/// `licenses` with ` OR ` between them.
pub open spec fn license_in(value: JsonView) -> Option<Seq<char>> {
    match value.get("license"@) {
        Some(JsonView::Str(s)) => Some(s),
        declared => match (match declared {
            Some(JsonView::Object(o)) => JsonView::Object(o).text("type"@),
            _ => None,
        }) {
            Some(t) => Some(t),
            None => legacy_licenses_in(value),
        },
    }
}

/// The types of the `licenses` that `value` declares, with ` OR ` between them.
pub open spec fn legacy_licenses_in(value: JsonView) -> Option<Seq<char>> {
    match value.items("licenses"@) {
        Some(items) => {
            let types = items.filter_map(license_type());
            if types.len() > 0 {
                Some(join(types, " OR "@))
            } else {
                None
            }
        },
        None => None,
    }
}

/// The types of the `licenses` that `value` declares, with ` OR ` between them.
fn legacy_licenses(value: &Json) -> (r: Option<String>)
    ensures
        r.deep_view() == legacy_licenses_in(value.deep_view()),
{
    match value.items("licenses") {
        Some(items) => {
            let ghost all = items.deep_view();
            let mut types: Vec<String> = Vec::new();
            let mut i: usize = 0;
            assert(types.deep_view() =~= all.take(0).filter_map(license_type())) by {
                reveal(Seq::filter_map);
            }
            while i < items.len()
                invariant
                    i <= items.len(),
                    all == items.deep_view(),
                    types.deep_view() == all.take(i as int).filter_map(license_type()),
                decreases items.len() - i,
            {
                let ghost done = types.deep_view();
                proof {
                    all.lemma_filter_map_take_succ(license_type(), i as int);
                }
                if let Some(t) = items[i].text("type") {
                    types.push(t.to_owned());
                    assert(types.deep_view() =~= done + seq![t@]);
                }
                i += 1;
            }
            assert(all.take(all.len() as int) =~= all);
            if types.len() > 0 {
                Some(join_texts(&types, " OR "))
            } else {
                None
            }
        },
        None => None,
    }
}

/// The license that a manifest, a lockfile entry or a registry entry declares.
pub fn normalize_license(value: &Json) -> (r: Option<String>)
    ensures
        r.deep_view() == license_in(value.deep_view()),
{
    broadcast use {crate::json::lemma_array_view, crate::json::lemma_object_view};

    match value.get("license") {
        Some(Json::Str(s)) => Some(s.clone()),
        Some(declared) => {
            match declared {
                Json::Object(_) => {
                    if let Some(t) = declared.text("type") {
                        return Some(t.to_owned());
                    }
                },
                _ => {},
            }
            legacy_licenses(value)
        },
        None => legacy_licenses(value),
    }
}

/// What declares a license.
pub trait License {
    /// The license that is declared.
    spec fn declared_license(&self) -> Option<Seq<char>>;

    /// The license that is declared, if any.
    fn license(&self) -> (r: Option<String>)
        ensures
            r.deep_view() == self.declared_license(),
    ;
}

} // verus!
