//! The advisories of an npm registry, by its bulk endpoint: one request with the versions of
//! every package, gzipped, and an answer by package names.

use super::advisory::{Advisory, AdvisoryView};
use super::cvss::{cvss_severity, score_in, severity_from_cvss, Score, ScoreView};
use super::{severity_named, Severity};
use crate::json::{
    lookup, lookup_member, no_items, no_members, normal, object, set_member, texts, texts_of,
    with_member, Json, JsonView, Number, NumberView,
};
use crate::sbom::{Component, ComponentView};
use crate::text::{
    chars_of, decimal, decimal_of, joined, split_on, split_text, starts_with, text_between,
    trim_end, trimmed_end,
};
use flate2::write::GzEncoder;
use std::io::Write;
use vstd::prelude::*;
use vstd::string::*;

verus! {

/// The advisories of an npm registry.
#[derive(Debug)]
pub struct NpmRegistrySource {
    pub registry_base: String,
}

impl NpmRegistrySource {
    /// The advisories of the registry at this base URL.
    pub fn new(registry_base: &str) -> (r: NpmRegistrySource)
        ensures
            r.registry_base@ == registry_base@,
    {
        NpmRegistrySource { registry_base: registry_base.to_owned() }
    }

    /// The URL that the request goes to.
    pub fn bulk_url(&self) -> (r: String)
        ensures
            r@ == trimmed_end(self.registry_base@, '/') + "/-/npm/v1/security/advisories/bulk"@,
    {
        joined(
            trim_end(self.registry_base.as_str(), '/').as_str(),
            "/-/npm/v1/security/advisories/bulk",
        )
    }
}

/// What `flate2::write::GzEncoder` makes of bytes at the default level of compression.
pub uninterp spec fn gzip_of(bytes: Seq<u8>) -> Option<Seq<u8>>;

/// Compresses with `flate2::write::GzEncoder` into memory. The outcome depends on the bytes
/// alone; it is nothing where the encoder fails.
#[verifier::external_body]
fn gzip(raw: &[u8]) -> (r: Option<Vec<u8>>)
    ensures
        r.deep_view() == gzip_of(raw@),
{
    let mut encoder = GzEncoder::new(Vec::new(), flate2::Compression::default());
    encoder.write_all(raw).ok()?;
    encoder.finish().ok()
}

/// `members` with the version among the versions of the name, each once.
pub open spec fn with_version(
    members: Seq<(Seq<char>, JsonView)>,
    name: Seq<char>,
    version: Seq<char>,
) -> Seq<(Seq<char>, JsonView)> {
    match lookup(members, name) {
        None => with_member(members, name, JsonView::Array(seq![JsonView::Str(version)])),
        Some(JsonView::Array(items)) => if items.contains(JsonView::Str(version)) {
            members
        } else {
            with_member(members, name, JsonView::Array(items.push(JsonView::Str(version))))
        },
        Some(_) => members,
    }
}

/// The versions of the components by their names.
pub open spec fn versions_by_name(components: Seq<ComponentView>) -> Seq<(Seq<char>, JsonView)>
    decreases components.len(),
{
    if components.len() == 0 {
        Seq::empty()
    } else {
        with_version(
            versions_by_name(components.drop_last()),
            components.last().name,
            components.last().version,
        )
    }
}

/// Whether one of the items is this text.
fn has_text(items: &Vec<Json>, s: &str) -> (r: bool)
    ensures
        r == items.deep_view().contains(JsonView::Str(s@)),
{
    let mut i: usize = 0;
    while i < items.len()
        invariant
            i <= items.len(),
            forall|j: int| 0 <= j < i ==> items.deep_view()[j] != JsonView::Str(s@),
        decreases items.len() - i,
    {
        if let Some(t) = items[i].as_str() {
            if crate::text::same(t, s) {
                assert(items.deep_view()[i as int] == JsonView::Str(s@));
                return true;
            }
        }
        assert(items.deep_view()[i as int] == items@[i as int].deep_view());
        i += 1;
    }
    false
}

/// The versions that a request already lists for a name: what to set for the name so that it
/// lists `version` too, or nothing where it need not change.
fn listed_versions(members: &Vec<(String, Json)>, name: &str, version: &str) -> (r: Option<Json>)
    ensures
        with_version(members.deep_view(), name@, version@) == (match r {
            Some(versions) => with_member(members.deep_view(), name@, versions.deep_view()),
            None => members.deep_view(),
        }),
{
    broadcast use {crate::json::lemma_array_view, crate::json::lemma_object_view};

    match lookup_member(members, name) {
        None => Some(crate::json::array_of(Json::string(version))),
        Some(Json::Array(items)) => {
            if has_text(items, version) {
                None
            } else {
                let mut list = no_items();
                let mut i: usize = 0;
                while i < items.len()
                    invariant
                        i <= items.len(),
                        list.deep_view() =~= items.deep_view().take(i as int),
                    decreases items.len() - i,
                {
                    crate::json::add_item(&mut list, items[i].copy());
                    i += 1;
                }
                assert(list.deep_view() =~= items.deep_view());
                crate::json::add_item(&mut list, Json::string(version));
                Some(crate::json::array(list))
            }
        },
        Some(_) => None,
    }
}

/// The body of the request: the versions of the components by their names, each once.
pub fn bulk_request_body(components: &[Component]) -> (r: Json)
    ensures
        r.deep_view() == JsonView::Object(versions_by_name(components.deep_view())),
{
    let ghost all = components.deep_view();
    let mut members = no_members();
    let mut i: usize = 0;
    assert(members.deep_view() =~= versions_by_name(all.take(0)));
    while i < components.len()
        invariant
            i <= components.len(),
            all == components.deep_view(),
            members.deep_view() == versions_by_name(all.take(i as int)),
        decreases components.len() - i,
    {
        let c = &components[i];
        assert(all.take(i + 1).drop_last() =~= all.take(i as int));
        if let Some(versions) = listed_versions(&members, c.name.as_str(), c.version.as_str()) {
            set_member(&mut members, c.name.as_str(), versions);
        }
        i += 1;
    }
    assert(all.take(all.len() as int) =~= all);
    object(members)
}

/// The bytes of the request: its body on one line, gzipped; nothing where that fails.
pub fn bulk_request_bytes(components: &[Component]) -> (r: Option<Vec<u8>>)
    ensures
        r.deep_view() == gzip_of(
            vstd::utf8::encode_utf8(
                crate::json::compact_text(
                    normal(JsonView::Object(versions_by_name(components.deep_view()))),
                ),
            ),
        ),
{
    let text = bulk_request_body(components).to_compact();
    gzip(text.as_str().as_bytes())
}

/// The first characters of `s` as far as they are letters, digits and hyphens.
pub open spec fn id_prefix(s: Seq<char>) -> Seq<char>
    decreases s.len(),
{
    if s.len() > 0 && crate::package_json::deps::is_word_char(s[0]) || s.len() > 0 && s[0] == '-' {
        seq![s[0]] + id_prefix(s.drop_first())
    } else {
        Seq::empty()
    }
}

/// The GHSA id in the URL of an advisory: what stands behind `/advisories/`, as far as it
/// reads as an id.
pub open spec fn ghsa_in(url: Seq<char>) -> Option<Seq<char>> {
    let pieces = split_on(url, "/advisories/"@);
    if pieces.len() < 2 {
        None
    } else {
        let id = id_prefix(pieces[1]);
        if "GHSA-"@.is_prefix_of(id) {
            Some(id)
        } else {
            None
        }
    }
}

/// The first characters of `s` as far as they are letters, digits and hyphens.
fn leading_id(s: &str) -> (r: String)
    ensures
        r@ == id_prefix(s@),
{
    let chars = chars_of(s);
    let mut n: usize = 0;
    assert(s@.skip(0) =~= s@);
    assert(s@.take(0) + id_prefix(s@.skip(0)) =~= id_prefix(s@));
    while n < chars.len() && (('a' <= chars[n] && chars[n] <= 'z') || ('A' <= chars[n] && chars[n]
        <= 'Z') || ('0' <= chars[n] && chars[n] <= '9') || chars[n] == '-')
        invariant
            n <= chars.len(),
            chars@ == s@,
            id_prefix(s@) == s@.take(n as int) + id_prefix(s@.skip(n as int)),
        decreases chars.len() - n,
    {
        assert(s@.skip(n as int).drop_first() =~= s@.skip(n + 1));
        assert(s@.take(n as int) + (seq![s@[n as int]] + id_prefix(s@.skip(n + 1))) =~= s@.take(
            n + 1,
        ) + id_prefix(s@.skip(n + 1)));
        n += 1;
    }
    let out = text_between(&chars, 0, n);
    assert(out@ =~= s@.take(n as int) + id_prefix(s@.skip(n as int)));
    out
}

/// The GHSA id in the URL of an advisory.
pub fn ghsa_from_url(url: &str) -> (r: Option<String>)
    ensures
        r.deep_view() == ghsa_in(url@),
{
    proof {
        reveal_strlit("/advisories/");
        assert("/advisories/"@.len() == 12);
    }
    let pieces = split_text(url, "/advisories/");
    if pieces.len() < 2 {
        return None;
    }
    let id = leading_id(pieces[1].as_str());
    if starts_with(id.as_str(), "GHSA-") {
        Some(id)
    } else {
        None
    }
}

/// An integer in decimal notation, or another number as it is printed.
pub open spec fn number_text(n: NumberView) -> Seq<char> {
    match n {
        NumberView::Unsigned(u) => decimal_of(u as nat),
        NumberView::Negative(i) => if i < 0 {
            "-"@ + decimal_of((-i) as nat)
        } else {
            decimal_of(i as nat)
        },
        NumberView::Float(t) => t,
    }
}

/// An id that is a text or a number.
pub open spec fn id_text(v: JsonView) -> Seq<char> {
    match v {
        JsonView::Str(s) => s,
        JsonView::Number(n) => number_text(n),
        _ => Seq::empty(),
    }
}

/// An integer in decimal notation, or another number as it is printed.
fn number_string(n: &Number) -> (r: String)
    ensures
        r@ == number_text(n.deep_view()),
{
    match n {
        Number::Unsigned(u) => decimal(*u),
        Number::Negative(i) => {
            if *i < 0 {
                let size: u64 = (-((*i) as i128)) as u64;
                joined("-", decimal(size).as_str())
            } else {
                decimal((*i) as u64)
            }
        },
        Number::Float(t) => t.clone(),
    }
}

/// An id that is a text or a number.
fn value_to_id(v: &Json) -> (r: String)
    ensures
        r@ == id_text(v.deep_view()),
{
    match v {
        Json::Str(s) => s.clone(),
        Json::Number(n) => number_string(n),
        _ => String::new(),
    }
}

/// The text of the member `key`, or the empty text.
pub open spec fn text_or_empty(v: JsonView, key: Seq<char>) -> Seq<char> {
    match v.text(key) {
        Some(s) => s,
        None => Seq::empty(),
    }
}

/// The texts in the array that is the member `key`.
pub open spec fn text_list(v: JsonView, key: Seq<char>) -> Seq<Seq<char>> {
    match v.items(key) {
        Some(items) => texts_of(items),
        None => Seq::empty(),
    }
}

/// The score of the `cvss` of an advisory.
pub open spec fn cvss_score_in(adv: JsonView) -> Option<ScoreView> {
    match adv.get("cvss"@) {
        Some(cvss) => match cvss.get("score"@) {
            Some(score) => score_in(score),
            None => None,
        },
        None => None,
    }
}

/// The vector of the `cvss` of an advisory.
pub open spec fn cvss_vector_in(adv: JsonView) -> Option<Seq<char>> {
    match adv.get("cvss"@) {
        Some(cvss) => cvss.text("vectorString"@),
        None => None,
    }
}

/// The severity of an advisory: by its word, else by its score.
pub open spec fn severity_in(adv: JsonView) -> Option<Severity> {
    let named = match adv.text("severity"@) {
        Some(word) => severity_named(word),
        None => None,
    };
    match named {
        Some(s) => Some(s),
        None => match cvss_score_in(adv) {
            Some(score) => cvss_severity(score.bits),
            None => None,
        },
    }
}

/// The GHSA id of an advisory, by its URL.
pub open spec fn ghsa_of(adv: JsonView) -> Option<Seq<char>> {
    match adv.text("url"@) {
        Some(url) => ghsa_in(url),
        None => None,
    }
}

/// An advisory of the answer on the package `name`.
pub open spec fn npm_advisory(name: Seq<char>) -> spec_fn(JsonView) -> AdvisoryView {
    |adv: JsonView|
        AdvisoryView {
            source: "npm"@,
            id: match ghsa_of(adv) {
                Some(id) => id,
                None => match adv.get("id"@) {
                    Some(v) => id_text(v),
                    None => Seq::empty(),
                },
            },
            aliases: match ghsa_of(adv) {
                Some(id) => seq![id],
                None => Seq::empty(),
            },
            package: name,
            vulnerable_range: text_or_empty(adv, "vulnerable_versions"@),
            severity: severity_in(adv),
            title: text_or_empty(adv, "title"@),
            url: adv.text("url"@),
            cwe: text_list(adv, "cwe"@),
            cvss_score: cvss_score_in(adv),
            cvss_vector: cvss_vector_in(adv),
            matched_version: Seq::empty(),
        }
}

/// The advisories of the answer: for each package name the items of its array.
pub open spec fn npm_advisories(members: Seq<(Seq<char>, JsonView)>) -> Seq<AdvisoryView>
    decreases members.len(),
{
    if members.len() == 0 {
        Seq::empty()
    } else {
        npm_advisories(members.drop_last()) + (match members.last().1 {
            JsonView::Array(items) => items.map_values(npm_advisory(members.last().0)),
            _ => Seq::empty(),
        })
    }
}

/// The text of the member `key`, or the empty text.
pub(crate) fn text_field(v: &Json, key: &str) -> (r: String)
    ensures
        r@ == text_or_empty(v.deep_view(), key@),
{
    match v.text(key) {
        Some(s) => s.to_owned(),
        None => String::new(),
    }
}

/// The text of the member `key`, where it is one.
pub(crate) fn text_option(v: &Json, key: &str) -> (r: Option<String>)
    ensures
        r.deep_view() == v.deep_view().text(key@),
{
    match v.text(key) {
        Some(s) => Some(s.to_owned()),
        None => None,
    }
}

/// The texts in the array that is the member `key`.
pub(crate) fn string_array(v: &Json, key: &str) -> (r: Vec<String>)
    ensures
        r.deep_view() == text_list(v.deep_view(), key@),
{
    match v.items(key) {
        Some(items) => texts(items),
        None => no_texts(),
    }
}

/// No texts.
pub(crate) fn no_texts() -> (r: Vec<String>)
    ensures
        r.deep_view() == Seq::<Seq<char>>::empty(),
{
    let r: Vec<String> = Vec::new();
    assert(r.deep_view() =~= Seq::<Seq<char>>::empty());
    r
}

/// An advisory of the answer on the package `name`.
fn parse_advisory(name: &str, adv: &Json) -> (r: Advisory)
    ensures
        r.deep_view() == npm_advisory(name@)(adv.deep_view()),
{
    let url = text_option(adv, "url");
    let ghsa: Option<String> = match &url {
        Some(u) => ghsa_from_url(u.as_str()),
        None => None,
    };
    let cvss = adv.get("cvss");
    let cvss_score: Option<Score> = match cvss {
        Some(c) => match c.get("score") {
            Some(score) => Score::from_json(score),
            None => None,
        },
        None => None,
    };
    let cvss_vector: Option<String> = match cvss {
        Some(c) => text_option(c, "vectorString"),
        None => None,
    };
    let named: Option<Severity> = match adv.text("severity") {
        Some(word) => Severity::from_str_loose(word),
        None => None,
    };
    let severity: Option<Severity> = match named {
        Some(s) => Some(s),
        None => match &cvss_score {
            Some(score) => severity_from_cvss(score.bits),
            None => None,
        },
    };
    let mut aliases = no_texts();
    let id: String = match &ghsa {
        Some(g) => {
            aliases.push(g.clone());
            assert(aliases.deep_view() =~= seq![g@]);
            g.clone()
        },
        None => match adv.get("id") {
            Some(v) => value_to_id(v),
            None => String::new(),
        },
    };
    Advisory {
        source: "npm",
        id,
        aliases,
        package: name.to_owned(),
        vulnerable_range: text_field(adv, "vulnerable_versions"),
        severity,
        title: text_field(adv, "title"),
        url,
        cwe: string_array(adv, "cwe"),
        cvss_score,
        cvss_vector,
        matched_version: String::new(),
    }
}

/// The advisories in an answer, which is an object by the names of the packages.
pub open spec fn bulk_advisories(answer: JsonView) -> Seq<AdvisoryView> {
    match answer {
        JsonView::Object(members) => npm_advisories(members),
        _ => Seq::empty(),
    }
}

/// The advisories of the answer of the bulk endpoint. The id of each is the GHSA id in its
/// URL, or the one that it gives; its severity is by its word, or by its score.
pub fn parse_npm_bulk(body: &Json) -> (r: Vec<Advisory>)
    ensures
        r.deep_view() == bulk_advisories(body.deep_view()),
{
    broadcast use {crate::json::lemma_array_view, crate::json::lemma_object_view};

    let mut out: Vec<Advisory> = Vec::new();
    match body {
        Json::Object(members) => {
            let ghost all = members.deep_view();
            let mut i: usize = 0;
            assert(out.deep_view() =~= npm_advisories(all.take(0)));
            while i < members.len()
                invariant
                    i <= members.len(),
                    all == members.deep_view(),
                    out.deep_view() == npm_advisories(all.take(i as int)),
                decreases members.len() - i,
            {
                let ghost before = out.deep_view();
                let name = &members[i].0;
                proof {
                    assert(all.take(i + 1).drop_last() =~= all.take(i as int));
                    assert(all[i as int] == (name@, members@[i as int].1.deep_view()));
                }
                match members[i].1.as_array() {
                    Some(items) => {
                        let ghost list = items.deep_view();
                        let ghost f = npm_advisory(name@);
                        let mut j: usize = 0;
                        assert(before + list.take(0).map_values(f) =~= before);
                        while j < items.len()
                            invariant
                                j <= items.len(),
                                list == items.deep_view(),
                                f == npm_advisory(name@),
                                out.deep_view() == before + list.take(j as int).map_values(f),
                            decreases items.len() - j,
                        {
                            let ghost done = out.deep_view();
                            let a = parse_advisory(name.as_str(), &items[j]);
                            let ghost v = a.deep_view();
                            out.push(a);
                            proof {
                                assert(v == f(list[j as int]));
                                assert(out.deep_view() =~= done.push(v));
                                assert(done.push(v) =~= before + list.take(j + 1).map_values(f));
                            }
                            j += 1;
                        }
                        assert(list.take(list.len() as int) =~= list);
                    },
                    None => {
                        assert(before =~= before + Seq::<AdvisoryView>::empty());
                    },
                }
                i += 1;
            }
            assert(all.take(all.len() as int) =~= all);
        },
        _ => {
            assert(out.deep_view() =~= Seq::<AdvisoryView>::empty());
        },
    }
    out
}

impl NpmRegistrySource {
    /// The request on the components: where it goes and its bytes, which are nothing where they
    /// cannot be made. Without components nothing is asked.
    pub fn request(&self, components: &[Component]) -> (r: Option<(String, Option<Vec<u8>>)>)
        ensures
            components@.len() == 0 ==> r is None,
            components@.len() > 0 ==> r is Some && r->Some_0.0@ == trimmed_end(
                self.registry_base@,
                '/',
            ) + "/-/npm/v1/security/advisories/bulk"@ && r->Some_0.1.deep_view() == gzip_of(
                vstd::utf8::encode_utf8(
                    crate::json::compact_text(
                        normal(JsonView::Object(versions_by_name(components.deep_view()))),
                    ),
                ),
            ),
    {
        if components.len() == 0 {
            return None;
        }
        Some((self.bulk_url(), bulk_request_bytes(components)))
    }

    /// The advisories in the answer to the request; none where there is no answer.
    pub fn answer(&self, body: Option<&Json>) -> (r: Vec<Advisory>)
        ensures
            r.deep_view() == (match body {
                Some(answer) => bulk_advisories(answer.deep_view()),
                None => Seq::empty(),
            }),
    {
        match body {
            Some(answer) => parse_npm_bulk(answer),
            None => {
                let none: Vec<Advisory> = Vec::new();
                assert(none.deep_view() =~= Seq::<AdvisoryView>::empty());
                none
            },
        }
    }
}

} // verus!
