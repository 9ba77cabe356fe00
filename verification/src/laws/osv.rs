//! What the records of OSV say of a package.

use crate::audit::osv::{
    affected_range, after_events, distinct_ids, entry_for, first_text, hydrated, is_entry_of,
    osv_advisory, osv_query, range_intervals, ranges_intervals, wanted_id, wanted_in, wanted_of,
};
use crate::audit::severity_named;
use crate::json::{lookup, texts_of, JsonView};
use crate::sbom::ComponentView;
use crate::sort::lemma_mapped;
use crate::text::join;
use vstd::prelude::*;
use vstd::string::*;

verus! {

/// Whether a range is one of semantic versions with these events.
pub open spec fn has_events(range: JsonView, events: Seq<JsonView>) -> bool {
    range.get("type"@) == Some(JsonView::Str("SEMVER"@)) && range.get("events"@) == Some(
        JsonView::Array(events),
    )
}

/// Whether an event introduces what is affected, from `version` on.
pub open spec fn introduces(event: JsonView, version: Seq<char>) -> bool {
    event.get("introduced"@) == Some(JsonView::Str(version))
}

/// Whether an event ends what is affected, before `version`.
pub open spec fn fixes(event: JsonView, version: Seq<char>) -> bool {
    !(event.get("introduced"@) matches Some(JsonView::Str(_))) && event.get("fixed"@) == Some(
        JsonView::Str(version),
    )
}

/// Whether an event ends what is affected, behind `version`.
pub open spec fn is_last_affected(event: JsonView, version: Seq<char>) -> bool {
    !(event.get("introduced"@) matches Some(JsonView::Str(_))) && !(event.get("fixed"@) matches Some(
        JsonView::Str(_),
    )) && event.get("last_affected"@) == Some(JsonView::Str(version))
}

/// Whether no interval is open behind the events: there are none, or the last of them ends what
/// is affected.
pub open spec fn is_settled(events: Seq<JsonView>) -> bool {
    events.len() == 0 || exists|v: Seq<char>| #[trigger] fixes(events.last(), v) || is_last_affected(
        events.last(),
        v,
    )
}

/// A range has an interval that is open at its end wherever its last event introduces something,
/// from whatever version on: from `0` on, all versions.
pub proof fn what_is_introduced_last_stays_affected(
    range: JsonView,
    events: Seq<JsonView>,
    version: Seq<char>,
)
    requires
        has_events(range, events),
        events.len() > 0,
        introduces(events.last(), version),
    ensures
        range_intervals(range).len() > 0,
        range_intervals(range).last() == if version == "0"@ {
            "*"@
        } else {
            ">="@ + version
        },
{
}

/// An interval stands for each pair of events that introduce and end something, behind those of
/// the events before: it begins with the first version, unless that is `0`, and ends before the
/// version with the fix, or behind the last that is affected.
pub proof fn a_pair_of_events_is_an_interval(
    before: JsonView,
    range: JsonView,
    events: Seq<JsonView>,
    opens: JsonView,
    closes: JsonView,
    low: Seq<char>,
    high: Seq<char>,
)
    requires
        has_events(before, events),
        is_settled(events),
        has_events(range, events.push(opens).push(closes)),
        introduces(opens, low),
        fixes(closes, high) || is_last_affected(closes, high),
    ensures
        ({
            let bound = if fixes(closes, high) {
                "<"@ + high
            } else {
                "<="@ + high
            };
            range_intervals(range) == range_intervals(before).push(
                if low == "0"@ {
                    bound
                } else {
                    ">="@ + low + " "@ + bound
                },
            )
        }),
{
    reveal_with_fuel(after_events, 3);
    let one = events.push(opens);
    let two = one.push(closes);
    assert(two.drop_last() =~= one);
    assert(one.drop_last() =~= events);
    lemma_settled(events);
}

/// What is introduced behind settled events adds one interval that is open at its end.
pub proof fn an_introduction_is_an_open_interval(
    before: JsonView,
    range: JsonView,
    events: Seq<JsonView>,
    opens: JsonView,
    low: Seq<char>,
)
    requires
        has_events(before, events),
        is_settled(events),
        has_events(range, events.push(opens)),
        introduces(opens, low),
    ensures
        range_intervals(range) == range_intervals(before).push(
            if low == "0"@ {
                "*"@
            } else {
                ">="@ + low
            },
        ),
{
    assert(events.push(opens).drop_last() =~= events);
    lemma_settled(events);
}

/// A fix behind settled events ends an interval from the first version on.
pub proof fn a_fix_alone_is_an_interval(
    before: JsonView,
    range: JsonView,
    events: Seq<JsonView>,
    closes: JsonView,
    high: Seq<char>,
)
    requires
        has_events(before, events),
        is_settled(events),
        has_events(range, events.push(closes)),
        fixes(closes, high) || is_last_affected(closes, high),
    ensures
        range_intervals(range) == range_intervals(before).push(
            if fixes(closes, high) {
                "<"@ + high
            } else {
                "<="@ + high
            },
        ),
{
    assert(events.push(closes).drop_last() =~= events);
    lemma_settled(events);
}

/// An event that neither introduces nor ends anything changes nothing.
pub proof fn other_events_do_not_count(
    before: JsonView,
    range: JsonView,
    events: Seq<JsonView>,
    event: JsonView,
)
    requires
        has_events(before, events),
        has_events(range, events.push(event)),
        !(event.get("introduced"@) matches Some(JsonView::Str(_))),
        !(event.get("fixed"@) matches Some(JsonView::Str(_))),
        !(event.get("last_affected"@) matches Some(JsonView::Str(_))),
    ensures
        range_intervals(range) == range_intervals(before),
{
    assert(events.push(event).drop_last() =~= events);
}

/// A range that is not of semantic versions, and one without events, has no intervals.
pub proof fn other_ranges_do_not_count(range: JsonView)
    requires
        range.get("type"@) != Some(JsonView::Str("SEMVER"@)) || !(range.get("events"@) matches Some(
            JsonView::Array(_),
        )) || has_events(range, Seq::empty()),
    ensures
        range_intervals(range).len() == 0,
{
}

/// Of alternating events, a range has as many intervals as events that introduce something.
pub proof fn each_introduction_has_an_interval(range: JsonView, events: Seq<JsonView>)
    requires
        has_events(range, events),
        forall|i: int|
            0 <= i < events.len() ==> ((#[trigger] events[i]).get("introduced"@) matches Some(
                JsonView::Str(_),
            )) == (i % 2 == 0) && (i % 2 == 1 ==> events[i].get("fixed"@) matches Some(
                JsonView::Str(_),
            )),
    ensures
        range_intervals(range).len() == (events.len() + 1) / 2,
{
    lemma_alternating(events);
}

proof fn lemma_alternating(events: Seq<JsonView>)
    requires
        forall|i: int|
            0 <= i < events.len() ==> ((#[trigger] events[i]).get("introduced"@) matches Some(
                JsonView::Str(_),
            )) == (i % 2 == 0) && (i % 2 == 1 ==> events[i].get("fixed"@) matches Some(
                JsonView::Str(_),
            )),
    ensures
        after_events(events).closed.len() == events.len() / 2,
        after_events(events).is_open == (events.len() % 2 == 1),
    decreases events.len(),
{
    if events.len() > 0 {
        let front = events.drop_last();
        let n = events.len() - 1;
        assert forall|i: int| 0 <= i < front.len() implies ((#[trigger] front[i]).get(
            "introduced"@,
        ) matches Some(JsonView::Str(_))) == (i % 2 == 0) && (i % 2 == 1 ==> front[i].get(
            "fixed"@,
        ) matches Some(JsonView::Str(_))) by {
            assert(front[i] == events[i]);
        }
        lemma_alternating(front);
        assert(events[n] == events.last());
    }
}

proof fn lemma_settled(events: Seq<JsonView>)
    requires
        is_settled(events),
    ensures
        !after_events(events).is_open,
        after_events(events).lower is None,
{
}

/// The affected versions of an entry are those of its ranges: where its ranges are those of two
/// entries, one behind the other, it has the alternatives of both.
pub proof fn alternatives_add_up(
    first: JsonView,
    second: JsonView,
    both: JsonView,
    a: Seq<JsonView>,
    b: Seq<JsonView>,
)
    requires
        first.get("ranges"@) == Some(JsonView::Array(a)),
        second.get("ranges"@) == Some(JsonView::Array(b)),
        both.get("ranges"@) == Some(JsonView::Array(a + b)),
    ensures
        affected_range(both) == match (affected_range(first), affected_range(second)) {
            (Some(x), Some(y)) => Some(x + " || "@ + y),
            (Some(x), None) => Some(x),
            (None, y) => y,
        },
{
    lemma_ranges_add_up(a, b);
    let x = ranges_intervals(a);
    let y = ranges_intervals(b);
    if x.len() == 0 {
        assert(x + y =~= y);
    } else if y.len() == 0 {
        assert(x + y =~= x);
    } else {
        lemma_join_concat(x, y, " || "@);
    }
}

/// The affected versions of an entry with one range that has one interval are that interval.
pub proof fn one_interval_is_the_range(entry: JsonView, range: JsonView)
    requires
        entry.get("ranges"@) == Some(JsonView::Array(seq![range])),
    ensures
        range_intervals(range).len() == 0 ==> affected_range(entry) is None,
        range_intervals(range).len() == 1 ==> affected_range(entry) == Some(
            range_intervals(range)[0],
        ),
        range_intervals(range).len() > 0 ==> affected_range(entry) is Some,
{
    let none = Seq::<JsonView>::empty();
    assert(seq![range].drop_last() =~= none);
    assert(ranges_intervals(none) =~= Seq::<Seq<char>>::empty());
    assert(ranges_intervals(seq![range]) =~= range_intervals(range));
    let x = range_intervals(range);
    if x.len() == 1 {
        assert(x =~= seq![x[0]]);
        lemma_join_one(x[0], " || "@);
    }
}

proof fn lemma_ranges_add_up(a: Seq<JsonView>, b: Seq<JsonView>)
    ensures
        ranges_intervals(a + b) == ranges_intervals(a) + ranges_intervals(b),
    decreases b.len(),
{
    if b.len() == 0 {
        assert(a + b =~= a);
        assert(ranges_intervals(a) + ranges_intervals(b) =~= ranges_intervals(a));
    } else {
        lemma_ranges_add_up(a, b.drop_last());
        assert((a + b).drop_last() =~= a + b.drop_last());
        assert(ranges_intervals(a + b) =~= ranges_intervals(a) + ranges_intervals(b));
    }
}

/// One text is joined to itself.
pub proof fn lemma_join_one(x: Seq<char>, separator: Seq<char>)
    ensures
        join(seq![x], separator) == x,
{
    reveal_with_fuel(join, 2);
    assert(seq![x].drop_last() =~= Seq::<Seq<char>>::empty());
}

/// What is joined of two lists, one behind the other.
pub proof fn lemma_join_concat(x: Seq<Seq<char>>, y: Seq<Seq<char>>, separator: Seq<char>)
    requires
        x.len() > 0,
        y.len() > 0,
    ensures
        join(x + y, separator) == join(x, separator) + separator + join(y, separator),
    decreases y.len(),
{
    let all = x + y;
    assert(all.drop_last() =~= x + y.drop_last());
    if y.len() == 1 {
        assert(x + y.drop_last() =~= x);
        assert(y =~= seq![y[0]]);
        lemma_join_one(y[0], separator);
        assert(join(all, separator) =~= join(x, separator) + separator + y[0]);
    } else {
        lemma_join_concat(x, y.drop_last(), separator);
        assert(join(all, separator) =~= join(x, separator) + separator + join(y, separator));
    }
}

/// Whether an entry of a record is of the npm package `name`.
pub open spec fn is_on(entry: JsonView, name: Seq<char>) -> bool {
    entry.get("package"@) matches Some(package) && package.get("ecosystem"@) == Some(
        JsonView::Str("npm"@),
    ) && package.get("name"@) == Some(JsonView::Str(name))
}

/// A record with an id is an advisory on each npm package that it has an entry on, by the first
/// such entry, wherever that has an affected range; it has the record's id and aliases, and what
/// it affects is that range.
pub proof fn a_record_is_an_advisory(
    record: JsonView,
    name: Seq<char>,
    id: Seq<char>,
    entries: Seq<JsonView>,
    k: int,
)
    requires
        record.get("id"@) == Some(JsonView::Str(id)),
        record.get("affected"@) == Some(JsonView::Array(entries)),
        0 <= k < entries.len(),
        is_on(entries[k], name),
        forall|i: int| 0 <= i < k ==> !is_on(#[trigger] entries[i], name),
    ensures
        match (osv_advisory(record, name), affected_range(entries[k])) {
            (Some(a), Some(range)) => {
                &&& a.source == "osv"@
                &&& a.id == id
                &&& a.package == name
                &&& a.vulnerable_range == range
                &&& match record.get("aliases"@) {
                    Some(JsonView::Array(items)) => a.aliases == texts_of(items),
                    _ => a.aliases.len() == 0,
                }
                &&& match record.get("summary"@) {
                    Some(JsonView::Str(summary)) => a.title == summary,
                    Some(_) => a.title.len() == 0,
                    None => match record.get("details"@) {
                        Some(JsonView::Str(details)) => a.title == details,
                        _ => a.title.len() == 0,
                    },
                }
                &&& match record.get("references"@) {
                    Some(JsonView::Array(items)) => if exists|i: int|
                        0 <= i < items.len() && (#[trigger] items[i]).get("url"@) matches Some(
                            JsonView::Str(_),
                        ) {
                        exists|i: int|
                            0 <= i < items.len() && (#[trigger] items[i]).get("url"@) == Some(
                                JsonView::Str(a.url->Some_0),
                            ) && forall|j: int|
                                0 <= j < i ==> !((#[trigger] items[j]).get("url"@) matches Some(
                                    JsonView::Str(_),
                                ))
                    } else {
                        a.url == Some("https://osv.dev/vulnerability/"@ + id)
                    },
                    _ => a.url == Some("https://osv.dev/vulnerability/"@ + id),
                }
                &&& match record.get("database_specific"@) {
                    Some(specific) => match specific.get("severity"@) {
                        Some(JsonView::Str(word)) => a.severity == severity_named(word),
                        _ => a.severity is None,
                    },
                    None => a.severity is None,
                }
                &&& match record.get("database_specific"@) {
                    Some(specific) => match specific.get("cwe_ids"@) {
                        Some(JsonView::Array(items)) => a.cwe == texts_of(items),
                        _ => a.cwe.len() == 0,
                    },
                    None => a.cwe.len() == 0,
                }
            },
            (None, None) => true,
            _ => false,
        },
{
    lemma_entry_for(entries, name, 0, k);
    if let Some(JsonView::Array(items)) = record.get("references"@) {
        lemma_first_text(items, "url"@, 0);
    }
}

proof fn lemma_first_text(items: Seq<JsonView>, key: Seq<char>, from: int)
    requires
        0 <= from,
    ensures
        match first_text(items, key, from) {
            Some(t) => exists|i: int|
                from <= i < items.len() && (#[trigger] items[i]).get(key) == Some(JsonView::Str(t))
                    && forall|j: int|
                    from <= j < i ==> !((#[trigger] items[j]).get(key) matches Some(
                        JsonView::Str(_),
                    )),
            None => forall|i: int|
                from <= i < items.len() ==> !((#[trigger] items[i]).get(key) matches Some(
                    JsonView::Str(_),
                )),
        },
    decreases items.len() - from,
{
    if from < items.len() {
        lemma_first_text(items, key, from + 1);
        match items[from].text(key) {
            Some(t) => {
                assert(items[from].get(key) == Some(JsonView::Str(t)));
            },
            None => {
                if let Some(t) = first_text(items, key, from + 1) {
                    let i = choose|i: int|
                        from + 1 <= i < items.len() && (#[trigger] items[i]).get(key) == Some(
                            JsonView::Str(t),
                        ) && forall|j: int|
                            from + 1 <= j < i ==> !((#[trigger] items[j]).get(key) matches Some(
                                JsonView::Str(_),
                            ));
                    assert forall|j: int| from <= j < i implies !((#[trigger] items[j]).get(
                        key,
                    ) matches Some(JsonView::Str(_))) by {
                        if j == from {
                            assert(items[from].text(key) is None);
                        }
                    }
                }
            },
        }
    }
}

proof fn lemma_entry_for(entries: Seq<JsonView>, name: Seq<char>, from: int, k: int)
    requires
        0 <= from <= k < entries.len(),
        is_on(entries[k], name),
        forall|i: int| from <= i < k ==> !is_on(#[trigger] entries[i], name),
    ensures
        entry_for(entries, name, from) == Some(entries[k]),
    decreases k - from,
{
    assert(is_entry_of(entries[from], name) == is_on(entries[from], name));
    if from < k {
        lemma_entry_for(entries, name, from + 1, k);
    }
}

/// A record is no advisory on a package on which it has no entry.
pub proof fn other_packages_are_not_affected(
    record: JsonView,
    name: Seq<char>,
    entries: Seq<JsonView>,
)
    requires
        record.get("affected"@) == Some(JsonView::Array(entries)),
        forall|i: int| 0 <= i < entries.len() ==> !is_on(#[trigger] entries[i], name),
    ensures
        osv_advisory(record, name) is None,
{
    lemma_no_entry(entries, name, 0);
}

proof fn lemma_no_entry(entries: Seq<JsonView>, name: Seq<char>, from: int)
    requires
        0 <= from,
        forall|i: int| 0 <= i < entries.len() ==> !is_on(#[trigger] entries[i], name),
    ensures
        entry_for(entries, name, from) is None,
    decreases entries.len() - from,
{
    if from < entries.len() {
        assert(!is_on(entries[from], name));
        lemma_no_entry(entries, name, from + 1);
    }
}

/// Each id in the result at the place of a component is wanted for that component.
pub proof fn each_id_of_an_answer_is_wanted(
    answer: JsonView,
    components: Seq<ComponentView>,
    results: Seq<JsonView>,
    i: int,
    vulns: Seq<JsonView>,
    j: int,
    id: Seq<char>,
)
    requires
        answer.get("results"@) == Some(JsonView::Array(results)),
        0 <= i < results.len(),
        i < components.len(),
        results[i].get("vulns"@) == Some(JsonView::Array(vulns)),
        0 <= j < vulns.len(),
        vulns[j].get("id"@) == Some(JsonView::Str(id)),
    ensures
        wanted_of(answer, components).contains((components[i].name, id)),
{
    lemma_wanted(results, components, i, vulns, j, id);
}

proof fn lemma_wanted(
    results: Seq<JsonView>,
    components: Seq<ComponentView>,
    i: int,
    vulns: Seq<JsonView>,
    j: int,
    id: Seq<char>,
)
    requires
        0 <= i < results.len(),
        i < components.len(),
        results[i].get("vulns"@) == Some(JsonView::Array(vulns)),
        0 <= j < vulns.len(),
        vulns[j].get("id"@) == Some(JsonView::Str(id)),
    ensures
        wanted_in(results, components).contains((components[i].name, id)),
    decreases results.len(),
{
    let all = wanted_in(results, components);
    let before = wanted_in(results.drop_last(), components);
    let pair = (components[i].name, id);
    if i < results.len() - 1 {
        lemma_wanted(results.drop_last(), components, i, vulns, j, id);
        let k = choose|k: int| 0 <= k < before.len() && before[k] == pair;
        assert(all[k] == pair);
    } else {
        let f = wanted_id(components[i].name);
        lemma_mapped(vulns, f, j);
        let ids = vulns.filter_map(f);
        let k = choose|k: int| 0 <= k < ids.len() && ids[k] == pair;
        assert(all[before.len() + k] == pair);
    }
}

/// Each record that is wanted is one that the answer names, for the component at its place.
pub proof fn only_ids_of_an_answer_are_wanted(
    answer: JsonView,
    components: Seq<ComponentView>,
    results: Seq<JsonView>,
    k: int,
)
    requires
        answer.get("results"@) == Some(JsonView::Array(results)),
        0 <= k < wanted_of(answer, components).len(),
    ensures
        exists|i: int|
            0 <= i < results.len() && i < components.len() && names_record(
                #[trigger] results[i],
                wanted_of(answer, components)[k].1,
            ) && wanted_of(answer, components)[k].0 == components[i].name,
{
    lemma_only_wanted(results, components, k);
}

/// Whether a result names a record.
pub open spec fn names_record(result: JsonView, id: Seq<char>) -> bool {
    result.get("vulns"@) matches Some(JsonView::Array(vulns)) && exists|j: int|
        0 <= j < vulns.len() && (#[trigger] vulns[j]).get("id"@) == Some(JsonView::Str(id))
}

proof fn lemma_only_wanted(results: Seq<JsonView>, components: Seq<ComponentView>, k: int)
    requires
        0 <= k < wanted_in(results, components).len(),
    ensures
        exists|i: int|
            0 <= i < results.len() && i < components.len() && names_record(
                #[trigger] results[i],
                wanted_in(results, components)[k].1,
            ) && wanted_in(results, components)[k].0 == components[i].name,
    decreases results.len(),
{
    let front = results.drop_last();
    let before = wanted_in(front, components);
    let pair = wanted_in(results, components)[k];
    if k < before.len() {
        lemma_only_wanted(front, components, k);
        let i = choose|i: int|
            0 <= i < front.len() && i < components.len() && names_record(
                #[trigger] front[i],
                before[k].1,
            ) && before[k].0 == components[i].name;
        assert(results[i] == front[i]);
    } else {
        let n = results.len() - 1;
        let vulns = results.last().items("vulns"@)->Some_0;
        let f = wanted_id(components[n].name);
        let ids = vulns.filter_map(f);
        assert(ids.contains(pair)) by {
            assert(ids[k - before.len()] == pair);
        }
        vulns.lemma_filter_map_contains(f, pair);
        let v = choose|v: JsonView| vulns.contains(v) && f(v) == Some(pair);
        let j = choose|j: int| 0 <= j < vulns.len() && vulns[j] == v;
        assert(vulns[j].get("id"@) == Some(JsonView::Str(pair.1)));
        assert(names_record(results[n], pair.1));
    }
}

/// No record is fetched that is not wanted.
pub proof fn only_wanted_records_are_fetched(wanted: Seq<(Seq<char>, Seq<char>)>, id: Seq<char>)
    requires
        distinct_ids(wanted).contains(id),
    ensures
        exists|i: int| 0 <= i < wanted.len() && (#[trigger] wanted[i]).1 == id,
    decreases wanted.len(),
{
    if wanted.len() > 0 {
        let front = wanted.drop_last();
        if distinct_ids(front).contains(id) {
            only_wanted_records_are_fetched(front, id);
            let i = choose|i: int| 0 <= i < front.len() && (#[trigger] front[i]).1 == id;
            assert(wanted[i] == front[i]);
        } else {
            let before = distinct_ids(front);
            let all = distinct_ids(wanted);
            let k = choose|k: int| 0 <= k < all.len() && all[k] == id;
            if k < before.len() {
                assert(before[k] == id);
            }
            assert(wanted[wanted.len() - 1].1 == id);
        }
    }
}

/// Each wanted record that was fetched and is an advisory on its package is among the advisories.
pub proof fn each_fetched_record_counts(
    wanted: Seq<(Seq<char>, Seq<char>)>,
    records: Seq<(Seq<char>, JsonView)>,
    i: int,
    record: JsonView,
)
    requires
        0 <= i < wanted.len(),
        lookup(records, wanted[i].1) == Some(record),
        osv_advisory(record, wanted[i].0) is Some,
    ensures
        hydrated(wanted, records).contains(osv_advisory(record, wanted[i].0)->Some_0),
    decreases wanted.len(),
{
    let all = hydrated(wanted, records);
    let front = wanted.drop_last();
    let before = hydrated(front, records);
    let a = osv_advisory(record, wanted[i].0)->Some_0;
    if i < front.len() {
        assert(front[i] == wanted[i]);
        each_fetched_record_counts(front, records, i, record);
        let k = choose|k: int| 0 <= k < before.len() && before[k] == a;
        assert(all[k] == a);
    } else {
        assert(all[before.len() as int] == a);
    }
}

/// Each advisory is a wanted record that was fetched.
pub proof fn advisories_are_fetched_records(
    wanted: Seq<(Seq<char>, Seq<char>)>,
    records: Seq<(Seq<char>, JsonView)>,
    k: int,
)
    requires
        0 <= k < hydrated(wanted, records).len(),
    ensures
        exists|i: int|
            0 <= i < wanted.len() && (lookup(records, (#[trigger] wanted[i]).1) matches Some(record)
                && osv_advisory(record, wanted[i].0) == Some(hydrated(wanted, records)[k])),
    decreases wanted.len(),
{
    let front = wanted.drop_last();
    let before = hydrated(front, records);
    if k < before.len() {
        advisories_are_fetched_records(front, records, k);
        let i = choose|i: int|
            0 <= i < front.len() && (lookup(records, (#[trigger] front[i]).1) matches Some(record)
                && osv_advisory(record, front[i].0) == Some(before[k]));
        assert(wanted[i] == front[i]);
    } else {
        assert(wanted[wanted.len() - 1] == wanted.last());
    }
}

/// The query on a component is on the npm package of its name, in its version.
pub proof fn a_query_names_its_component(c: ComponentView)
    ensures
        osv_query()(c).get("version"@) == Some(JsonView::Str(c.version)),
        osv_query()(c).get("package"@) matches Some(package) && package.get("name"@) == Some(
            JsonView::Str(c.name),
        ) && package.get("ecosystem"@) == Some(JsonView::Str("npm"@)),
{
    reveal_strlit("version");
    reveal_strlit("package");
    reveal_strlit("name");
    reveal_strlit("ecosystem");
    assert("version"@[0] == 'v' && "package"@[0] == 'p' && "name"@[0] == 'n' && "ecosystem"@[0]
        == 'e');
    reveal_with_fuel(lookup, 3);
}

} // verus!
