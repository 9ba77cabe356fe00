//! The advisories of OSV: a batch of queries is answered with ids of records, and each record
//! names the affected packages and their ranges of versions.

use super::advisory::{Advisory, AdvisoryView};
use super::npm::{no_texts, string_array, text_list};
use super::{severity_named, Severity};
use crate::json::{
    add_item, array, no_items, no_members, object, object_of, put, Json, JsonView,
};
use crate::sbom::{Component, ComponentView};
use crate::text::{join, join_texts, joined, same};
use vstd::prelude::*;
use vstd::string::*;

verus! {

/// Where a batch of queries goes.
pub const QUERYBATCH_URL: &'static str = "https://api.osv.dev/v1/querybatch";

/// Where the records are.
pub const VULN_URL_BASE: &'static str = "https://api.osv.dev/v1/vulns";

/// The advisories of OSV.
#[derive(Debug)]
pub struct OsvSource;

/// The query on a component.
pub open spec fn osv_query() -> spec_fn(ComponentView) -> JsonView {
    |c: ComponentView|
        JsonView::Object(
            seq![
                (
                    "package"@,
                    JsonView::Object(
                        seq![
                            ("name"@, JsonView::Str(c.name)),
                            ("ecosystem"@, JsonView::Str("npm"@)),
                        ],
                    ),
                ),
                ("version"@, JsonView::Str(c.version)),
            ],
        )
}

/// A batch of queries: one for each component, in order.
pub fn querybatch_body(components: &[Component]) -> (r: Json)
    ensures
        r.deep_view() == JsonView::Object(
            seq![
                (
                    "queries"@,
                    JsonView::Array(components.deep_view().map_values(osv_query())),
                ),
            ],
        ),
{
    let ghost all = components.deep_view();
    let mut queries = no_items();
    let mut i: usize = 0;
    while i < components.len()
        invariant
            i <= components.len(),
            all == components.deep_view(),
            queries.deep_view() =~= all.take(i as int).map_values(osv_query()),
        decreases components.len() - i,
    {
        let c = &components[i];
        let mut package = no_members();
        put(&mut package, "name", Json::string(c.name.as_str()));
        put(&mut package, "ecosystem", Json::string("npm"));
        assert(package.deep_view() =~= seq![
            ("name"@, JsonView::Str(c.name@)),
            ("ecosystem"@, JsonView::Str("npm"@)),
        ]);
        let mut query = no_members();
        put(&mut query, "package", object(package));
        put(&mut query, "version", Json::string(c.version.as_str()));
        assert(query.deep_view() =~= osv_query()(c.deep_view())->Object_0);
        add_item(&mut queries, object(query));
        i += 1;
    }
    assert(all.take(all.len() as int) =~= all);
    object_of("queries", array(queries))
}

impl OsvSource {
    /// The request on the components, to [`QUERYBATCH_URL`], on one line. Without components
    /// nothing is asked.
    pub fn request(&self, components: &[Component]) -> (r: Option<String>)
        ensures
            components@.len() == 0 ==> r is None,
            components@.len() > 0 ==> r is Some && r->Some_0@ == crate::json::compact_text(
                crate::json::normal(
                    JsonView::Object(
                        seq![
                            (
                                "queries"@,
                                JsonView::Array(components.deep_view().map_values(osv_query())),
                            ),
                        ],
                    ),
                ),
            ),
    {
        if components.len() == 0 {
            return None;
        }
        Some(querybatch_body(components).to_compact())
    }
}

/// The URL of a record.
pub fn record_url(id: &str) -> (r: String)
    ensures
        r@ == VULN_URL_BASE@ + "/"@ + id@,
{
    crate::text::joined3(VULN_URL_BASE, "/", id)
}

/// The id of an item of the `vulns` of a result, with the name of the package it is for.
pub open spec fn wanted_id(name: Seq<char>) -> spec_fn(JsonView) -> Option<(Seq<char>, Seq<char>)> {
    |v: JsonView|
        match v.text("id"@) {
            Some(id) => Some((name, id)),
            None => None,
        }
}

/// The records that the results ask for: the result at each place is for the component at
/// that place, and what is behind the last component is for none.
pub open spec fn wanted_in(
    results: Seq<JsonView>,
    components: Seq<ComponentView>,
) -> Seq<(Seq<char>, Seq<char>)>
    decreases results.len(),
{
    if results.len() == 0 {
        Seq::empty()
    } else {
        let before = wanted_in(results.drop_last(), components);
        if results.len() > components.len() {
            before
        } else {
            match results.last().items("vulns"@) {
                Some(vulns) => before + vulns.filter_map(
                    wanted_id(components[results.len() - 1].name),
                ),
                None => before,
            }
        }
    }
}

/// The records that an answer asks for, each with the name of the package it is for.
pub open spec fn wanted_of(
    answer: JsonView,
    components: Seq<ComponentView>,
) -> Seq<(Seq<char>, Seq<char>)> {
    match answer.items("results"@) {
        Some(results) => wanted_in(results, components),
        None => Seq::empty(),
    }
}

/// The ids of a result with the name of the package it is for.
fn result_ids(vulns: &Vec<Json>, name: &str) -> (r: Vec<(String, String)>)
    ensures
        r.deep_view() == vulns.deep_view().filter_map(wanted_id(name@)),
{
    let ghost all = vulns.deep_view();
    let ghost f = wanted_id(name@);
    let mut out: Vec<(String, String)> = Vec::new();
    let mut i: usize = 0;
    assert(out.deep_view() =~= all.take(0).filter_map(f)) by {
        reveal(Seq::filter_map);
    }
    while i < vulns.len()
        invariant
            i <= vulns.len(),
            all == vulns.deep_view(),
            f == wanted_id(name@),
            out.deep_view() == all.take(i as int).filter_map(f),
        decreases vulns.len() - i,
    {
        let ghost done = out.deep_view();
        proof {
            all.lemma_filter_map_take_succ(f, i as int);
        }
        if let Some(id) = vulns[i].text("id") {
            out.push((name.to_owned(), id.to_owned()));
            assert(out.deep_view() =~= done + seq![(name@, id@)]);
        }
        i += 1;
    }
    assert(all.take(all.len() as int) =~= all);
    out
}

/// The records that an answer asks for, each with the name of the package it is for.
pub fn wanted_records(answer: &Json, components: &[Component]) -> (r: Vec<(String, String)>)
    ensures
        r.deep_view() == wanted_of(answer.deep_view(), components.deep_view()),
{
    let ghost comps = components.deep_view();
    let mut out: Vec<(String, String)> = Vec::new();
    match answer.items("results") {
        Some(results) => {
            let ghost all = results.deep_view();
            let mut i: usize = 0;
            assert(out.deep_view() =~= wanted_in(all.take(0), comps));
            while i < results.len()
                invariant
                    i <= results.len(),
                    all == results.deep_view(),
                    comps == components.deep_view(),
                    out.deep_view() == wanted_in(all.take(i as int), comps),
                decreases results.len() - i,
            {
                let ghost done = out.deep_view();
                assert(all.take(i + 1).drop_last() =~= all.take(i as int));
                if i < components.len() {
                    if let Some(vulns) = results[i].items("vulns") {
                        let ids = result_ids(vulns, components[i].name.as_str());
                        let ghost v = ids.deep_view();
                        let mut ids = ids;
                        out.append(&mut ids);
                        assert(out.deep_view() =~= done + v);
                    }
                }
                i += 1;
            }
            assert(all.take(all.len() as int) =~= all);
        },
        None => {
            assert(out.deep_view() =~= Seq::<(Seq<char>, Seq<char>)>::empty());
        },
    }
    out
}

/// The ids of the wanted records, each once, in the order in which they come first.
pub open spec fn distinct_ids(wanted: Seq<(Seq<char>, Seq<char>)>) -> Seq<Seq<char>>
    decreases wanted.len(),
{
    if wanted.len() == 0 {
        Seq::empty()
    } else {
        let before = distinct_ids(wanted.drop_last());
        if before.contains(wanted.last().1) {
            before
        } else {
            before.push(wanted.last().1)
        }
    }
}

/// The ids of the wanted records, each once.
pub fn ids_to_fetch(wanted: &Vec<(String, String)>) -> (r: Vec<String>)
    ensures
        r.deep_view() == distinct_ids(wanted.deep_view()),
{
    let ghost all = wanted.deep_view();
    let mut out = no_texts();
    let mut i: usize = 0;
    assert(out.deep_view() =~= distinct_ids(all.take(0)));
    while i < wanted.len()
        invariant
            i <= wanted.len(),
            all == wanted.deep_view(),
            out.deep_view() == distinct_ids(all.take(i as int)),
        decreases wanted.len() - i,
    {
        let ghost done = out.deep_view();
        assert(all.take(i + 1).drop_last() =~= all.take(i as int));
        if !crate::text::any_is(&out, wanted[i].1.as_str()) {
            out.push(wanted[i].1.clone());
            assert(out.deep_view() =~= done.push(all[i as int].1));
        }
        i += 1;
    }
    assert(all.take(all.len() as int) =~= all);
    out
}

/// The ids to fetch are those that are wanted, and none of them comes twice.
pub proof fn each_record_is_fetched_once(wanted: Seq<(Seq<char>, Seq<char>)>)
    ensures
        distinct_ids(wanted).no_duplicates(),
        forall|i: int|
            0 <= i < wanted.len() ==> distinct_ids(wanted).contains((#[trigger] wanted[i]).1),
    decreases wanted.len(),
{
    if wanted.len() > 0 {
        let front = wanted.drop_last();
        each_record_is_fetched_once(front);
        let before = distinct_ids(front);
        let r = distinct_ids(wanted);
        assert forall|i: int| 0 <= i < wanted.len() implies r.contains((#[trigger] wanted[i]).1) by {
            if i < front.len() {
                assert(before.contains(front[i].1));
                let k = choose|k: int| 0 <= k < before.len() && before[k] == front[i].1;
                assert(r[k] == wanted[i].1);
            } else if !before.contains(wanted.last().1) {
                assert(r[before.len() as int] == wanted[i].1);
            }
        }
    }
}

/// One affected interval as comparators: a lower bound, an upper bound, or any version.
pub open spec fn interval_text(
    lower: Option<Seq<char>>,
    upper: Option<(Seq<char>, Seq<char>)>,
) -> Seq<char> {
    match (lower, upper) {
        (Some(l), Some((op, v))) => ">="@ + l + " "@ + (op + v),
        (Some(l), None) => ">="@ + l,
        (None, Some((op, v))) => op + v,
        (None, None) => "*"@,
    }
}

/// One affected interval as comparators.
fn interval(lower: Option<&str>, upper: Option<(&str, &str)>) -> (r: String)
    ensures
        r@ == interval_text(
            lower.deep_view(),
            match upper {
                Some((op, v)) => Some((op@, v@)),
                None => None,
            },
        ),
{
    match (lower, upper) {
        (Some(l), Some((op, v))) => {
            let mut out = joined(">=", l);
            out.append(" ");
            out.append(joined(op, v).as_str());
            out
        },
        (Some(l), None) => joined(">=", l),
        (None, Some((op, v))) => joined(op, v),
        (None, None) => "*".to_owned(),
    }
}

/// The events of a range as far as they are read: the intervals that are closed, the lower
/// bound of the next one, and whether that one is open.
#[verifier::ext_equal]
pub struct EventsView {
    pub closed: Seq<Seq<char>>,
    pub lower: Option<Seq<char>>,
    pub is_open: bool,
}

/// An event opens an interval, closes one, or is of no concern. The version `0` is no bound.
pub open spec fn after_event(state: EventsView, event: JsonView) -> EventsView {
    match event.text("introduced"@) {
        Some(introduced) => EventsView {
            lower: if introduced == "0"@ {
                None
            } else {
                Some(introduced)
            },
            is_open: true,
            ..state
        },
        None => match event.text("fixed"@) {
            Some(fixed) => EventsView {
                closed: state.closed.push(interval_text(state.lower, Some(("<"@, fixed)))),
                lower: None,
                is_open: false,
            },
            None => match event.text("last_affected"@) {
                Some(last) => EventsView {
                    closed: state.closed.push(interval_text(state.lower, Some(("<="@, last)))),
                    lower: None,
                    is_open: false,
                },
                None => state,
            },
        },
    }
}

/// What the events of a range come to.
pub open spec fn after_events(events: Seq<JsonView>) -> EventsView
    decreases events.len(),
{
    if events.len() == 0 {
        EventsView { closed: Seq::empty(), lower: None, is_open: false }
    } else {
        after_event(after_events(events.drop_last()), events.last())
    }
}

/// The intervals of a range of semantic versions; other ranges have none here.
pub open spec fn range_intervals(range: JsonView) -> Seq<Seq<char>> {
    if range.text("type"@) == Some("SEMVER"@) {
        match range.items("events"@) {
            Some(events) => {
                let state = after_events(events);
                if state.is_open {
                    state.closed.push(interval_text(state.lower, None))
                } else {
                    state.closed
                }
            },
            None => Seq::empty(),
        }
    } else {
        Seq::empty()
    }
}

/// The intervals of several ranges.
pub open spec fn ranges_intervals(ranges: Seq<JsonView>) -> Seq<Seq<char>>
    decreases ranges.len(),
{
    if ranges.len() == 0 {
        Seq::empty()
    } else {
        ranges_intervals(ranges.drop_last()) + range_intervals(ranges.last())
    }
}

/// The affected versions of an entry as a range; nothing where it has no interval.
pub open spec fn affected_range(entry: JsonView) -> Option<Seq<char>> {
    match entry.items("ranges"@) {
        Some(ranges) => {
            let intervals = ranges_intervals(ranges);
            if intervals.len() > 0 {
                Some(join(intervals, " || "@))
            } else {
                None
            }
        },
        None => None,
    }
}

/// The intervals of a range of semantic versions.
fn intervals_in(range: &Json) -> (r: Vec<String>)
    ensures
        r.deep_view() == range_intervals(range.deep_view()),
{
    let is_semver = match range.text("type") {
        Some(t) => same(t, "SEMVER"),
        None => false,
    };
    let mut closed = no_texts();
    if !is_semver {
        return closed;
    }
    match range.items("events") {
        Some(events) => {
            let ghost all = events.deep_view();
            let mut lower: Option<String> = None;
            let mut is_open = false;
            let mut i: usize = 0;
            while i < events.len()
                invariant
                    i <= events.len(),
                    all == events.deep_view(),
                    after_events(all.take(i as int)) == (EventsView {
                        closed: closed.deep_view(),
                        lower: lower.deep_view(),
                        is_open,
                    }),
                decreases events.len() - i,
            {
                let ghost done = closed.deep_view();
                assert(all.take(i + 1).drop_last() =~= all.take(i as int));
                let event = &events[i];
                if let Some(introduced) = event.text("introduced") {
                    lower = if same(introduced, "0") {
                        None
                    } else {
                        Some(introduced.to_owned())
                    };
                    is_open = true;
                } else {
                    let bound: Option<(&str, &str)> = match event.text("fixed") {
                        Some(fixed) => Some(("<", fixed)),
                        None => match event.text("last_affected") {
                            Some(last) => Some(("<=", last)),
                            None => None,
                        },
                    };
                    if bound.is_some() {
                        let piece = interval(opt_str(&lower), bound);
                        let ghost v = piece@;
                        closed.push(piece);
                        assert(closed.deep_view() =~= done.push(v));
                        lower = None;
                        is_open = false;
                    }
                }
                i += 1;
            }
            assert(all.take(all.len() as int) =~= all);
            if is_open {
                let ghost done = closed.deep_view();
                let piece = interval(opt_str(&lower), None);
                let ghost v = piece@;
                closed.push(piece);
                assert(closed.deep_view() =~= done.push(v));
            }
        },
        None => {},
    }
    closed
}

/// A text where there is one, borrowed.
fn opt_str(s: &Option<String>) -> (r: Option<&str>)
    ensures
        r.deep_view() == s.deep_view(),
{
    match s {
        Some(t) => Some(t.as_str()),
        None => None,
    }
}

/// The affected versions of an entry as a range: the intervals between its events, with ` || `
/// between them.
pub fn osv_range_string(entry: &Json) -> (r: Option<String>)
    ensures
        r.deep_view() == affected_range(entry.deep_view()),
{
    match entry.items("ranges") {
        Some(ranges) => {
            let ghost all = ranges.deep_view();
            let mut alternatives = no_texts();
            let mut i: usize = 0;
            assert(alternatives.deep_view() =~= ranges_intervals(all.take(0)));
            while i < ranges.len()
                invariant
                    i <= ranges.len(),
                    all == ranges.deep_view(),
                    alternatives.deep_view() == ranges_intervals(all.take(i as int)),
                decreases ranges.len() - i,
            {
                let ghost done = alternatives.deep_view();
                assert(all.take(i + 1).drop_last() =~= all.take(i as int));
                let pieces = intervals_in(&ranges[i]);
                let ghost v = pieces.deep_view();
                let mut pieces = pieces;
                alternatives.append(&mut pieces);
                assert(alternatives.deep_view() =~= done + v);
                i += 1;
            }
            assert(all.take(all.len() as int) =~= all);
            if alternatives.len() > 0 {
                Some(join_texts(&alternatives, " || "))
            } else {
                None
            }
        },
        None => None,
    }
}

/// Whether an entry of a record is of the npm package `name`.
pub open spec fn is_entry_of(entry: JsonView, name: Seq<char>) -> bool {
    match entry.get("package"@) {
        Some(package) => package.text("ecosystem"@) == Some("npm"@) && package.text("name"@)
            == Some(name),
        None => false,
    }
}

/// The first entry from `from` on that is of the npm package `name`.
pub open spec fn entry_for(entries: Seq<JsonView>, name: Seq<char>, from: int) -> Option<JsonView>
    decreases entries.len() - from,
{
    if from < 0 || from >= entries.len() {
        None
    } else if is_entry_of(entries[from], name) {
        Some(entries[from])
    } else {
        entry_for(entries, name, from + 1)
    }
}

/// The first text from `from` on that an item has under `key`.
pub open spec fn first_text(items: Seq<JsonView>, key: Seq<char>, from: int) -> Option<Seq<char>>
    decreases items.len() - from,
{
    if from < 0 || from >= items.len() {
        None
    } else {
        match items[from].text(key) {
            Some(t) => Some(t),
            None => first_text(items, key, from + 1),
        }
    }
}

/// The first text that an item of the member `list` has under `key`.
pub open spec fn first_text_in(v: JsonView, list: Seq<char>, key: Seq<char>) -> Option<Seq<char>> {
    match v.items(list) {
        Some(items) => first_text(items, key, 0),
        None => None,
    }
}

/// The title of a record: its `summary`, or its `details` where it has no such member.
pub open spec fn record_title(record: JsonView) -> Seq<char> {
    let value = match record.get("summary"@) {
        Some(v) => Some(v),
        None => record.get("details"@),
    };
    match value {
        Some(v) => match v.as_str() {
            Some(s) => s,
            None => Seq::empty(),
        },
        None => Seq::empty(),
    }
}

/// The severity of a record, by the word of its database.
pub open spec fn record_severity(record: JsonView) -> Option<Severity> {
    match record.get("database_specific"@) {
        Some(d) => match d.text("severity"@) {
            Some(word) => severity_named(word),
            None => None,
        },
        None => None,
    }
}

/// The advisory that a record is for the npm package `name`; nothing where it has no id, no
/// entry for the package, or no affected range.
pub open spec fn osv_advisory(record: JsonView, name: Seq<char>) -> Option<AdvisoryView> {
    match (record.text("id"@), record.items("affected"@)) {
        (Some(id), Some(entries)) => match entry_for(entries, name, 0) {
            Some(entry) => match affected_range(entry) {
                Some(range) => Some(
                    AdvisoryView {
                        source: "osv"@,
                        id,
                        aliases: text_list(record, "aliases"@),
                        package: name,
                        vulnerable_range: range,
                        severity: record_severity(record),
                        title: record_title(record),
                        url: Some(
                            match first_text_in(record, "references"@, "url"@) {
                                Some(url) => url,
                                None => "https://osv.dev/vulnerability/"@ + id,
                            },
                        ),
                        cwe: match record.get("database_specific"@) {
                            Some(d) => text_list(d, "cwe_ids"@),
                            None => Seq::empty(),
                        },
                        cvss_score: None,
                        cvss_vector: first_text_in(record, "severity"@, "score"@),
                        matched_version: Seq::empty(),
                    },
                ),
                None => None,
            },
            None => None,
        },
        _ => None,
    }
}

/// The first entry that is of the npm package `name`.
fn find_entry<'a>(entries: &'a Vec<Json>, name: &str) -> (r: Option<&'a Json>)
    ensures
        r.deep_view() == entry_for(entries.deep_view(), name@, 0),
{
    let ghost all = entries.deep_view();
    let mut i: usize = 0;
    while i < entries.len()
        invariant
            i <= entries.len(),
            all == entries.deep_view(),
            entry_for(all, name@, 0) == entry_for(all, name@, i as int),
        decreases entries.len() - i,
    {
        let is_it = match entries[i].get("package") {
            Some(package) => {
                let npm = match package.text("ecosystem") {
                    Some(e) => same(e, "npm"),
                    None => false,
                };
                let named = match package.text("name") {
                    Some(n) => same(n, name),
                    None => false,
                };
                npm && named
            },
            None => false,
        };
        assert(is_it == is_entry_of(all[i as int], name@));
        if is_it {
            return Some(&entries[i]);
        }
        i += 1;
    }
    None
}

/// The first text that an item of the member `list` has under `key`.
fn find_text(v: &Json, list: &str, key: &str) -> (r: Option<String>)
    ensures
        r.deep_view() == first_text_in(v.deep_view(), list@, key@),
{
    match v.items(list) {
        Some(items) => {
            let ghost all = items.deep_view();
            let mut i: usize = 0;
            while i < items.len()
                invariant
                    i <= items.len(),
                    all == items.deep_view(),
                    first_text_in(v.deep_view(), list@, key@) == first_text(all, key@, i as int),
                decreases items.len() - i,
            {
                if let Some(t) = items[i].text(key) {
                    return Some(t.to_owned());
                }
                i += 1;
            }
            None
        },
        None => None,
    }
}

/// The title of a record.
fn title_of(record: &Json) -> (r: String)
    ensures
        r@ == record_title(record.deep_view()),
{
    let value = match record.get("summary") {
        Some(v) => Some(v),
        None => record.get("details"),
    };
    match value {
        Some(v) => match v.as_str() {
            Some(s) => s.to_owned(),
            None => String::new(),
        },
        None => String::new(),
    }
}

/// The advisory that a record is for the npm package `want_name`.
pub fn parse_osv_vuln(record: &Json, want_name: &str) -> (r: Option<Advisory>)
    ensures
        r.deep_view() == osv_advisory(record.deep_view(), want_name@),
{
    let id: String = match record.text("id") {
        Some(id) => id.to_owned(),
        None => {
            return None;
        },
    };
    let entries = match record.items("affected") {
        Some(entries) => entries,
        None => {
            return None;
        },
    };
    let entry = match find_entry(entries, want_name) {
        Some(entry) => entry,
        None => {
            return None;
        },
    };
    let vulnerable_range = match osv_range_string(entry) {
        Some(range) => range,
        None => {
            return None;
        },
    };
    let specific = record.get("database_specific");
    let severity: Option<Severity> = match specific {
        Some(d) => match d.text("severity") {
            Some(word) => Severity::from_str_loose(word),
            None => None,
        },
        None => None,
    };
    let cwe = match specific {
        Some(d) => string_array(d, "cwe_ids"),
        None => no_texts(),
    };
    let url: String = match find_text(record, "references", "url") {
        Some(url) => url,
        None => joined("https://osv.dev/vulnerability/", id.as_str()),
    };
    Some(
        Advisory {
            source: "osv",
            id,
            aliases: string_array(record, "aliases"),
            package: want_name.to_owned(),
            vulnerable_range,
            severity,
            title: title_of(record),
            url: Some(url),
            cwe,
            cvss_score: None,
            cvss_vector: find_text(record, "severity", "score"),
            matched_version: String::new(),
        },
    )
}

/// The advisories of the wanted records that were fetched: for each in turn what its record is
/// for its package.
pub open spec fn hydrated(
    wanted: Seq<(Seq<char>, Seq<char>)>,
    records: Seq<(Seq<char>, JsonView)>,
) -> Seq<AdvisoryView>
    decreases wanted.len(),
{
    if wanted.len() == 0 {
        Seq::empty()
    } else {
        let before = hydrated(wanted.drop_last(), records);
        let (name, id) = wanted.last();
        match crate::json::lookup(records, id) {
            Some(record) => match osv_advisory(record, name) {
                Some(a) => before.push(a),
                None => before,
            },
            None => before,
        }
    }
}

/// The advisories of the wanted records, of which `records` holds those that were fetched, by
/// their ids.
pub fn collect_advisories(
    wanted: &Vec<(String, String)>,
    records: &Vec<(String, Json)>,
) -> (r: Vec<Advisory>)
    ensures
        r.deep_view() == hydrated(wanted.deep_view(), records.deep_view()),
{
    let ghost all = wanted.deep_view();
    let mut out: Vec<Advisory> = Vec::new();
    let mut i: usize = 0;
    assert(out.deep_view() =~= hydrated(all.take(0), records.deep_view()));
    while i < wanted.len()
        invariant
            i <= wanted.len(),
            all == wanted.deep_view(),
            out.deep_view() == hydrated(all.take(i as int), records.deep_view()),
        decreases wanted.len() - i,
    {
        let ghost done = out.deep_view();
        assert(all.take(i + 1).drop_last() =~= all.take(i as int));
        if let Some(record) = crate::json::lookup_member(records, wanted[i].1.as_str()) {
            if let Some(a) = parse_osv_vuln(record, wanted[i].0.as_str()) {
                let ghost v = a.deep_view();
                out.push(a);
                assert(out.deep_view() =~= done.push(v));
            }
        }
        i += 1;
    }
    assert(all.take(all.len() as int) =~= all);
    out
}

} // verus!
