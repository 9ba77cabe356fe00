//! What is written into a `package.json`: a new manifest, and dependencies put in.
//!
//! The fields of a manifest keep their order; its `dependencies` are put in order, as npm
//! does when it saves.

use crate::json::{
    distinct_members, keys_of, lookup, lookup_member, no_members, normal, object, pretty_text, put,
    reads_as, set_member, text_member, text_members, text_members_of, with_member, Json, JsonView,
};
use crate::sort::{
    differ_by, insert_sorted, lemma_mapped, lemma_mapped_in_order, lemma_same_values,
    lemma_sorted_differ, sort_stable, sorting_is_stable, stable_sort, strictly_sorted, Sortable,
};
use crate::text::{at_most, joined, same, text_leq};
use vstd::prelude::*;
use vstd::string::*;

verus! {

impl Sortable for (String, Json) {
    open spec fn leq(a: (Seq<char>, JsonView), b: (Seq<char>, JsonView)) -> bool {
        text_leq(a.0, b.0)
    }

    proof fn leq_total(a: (Seq<char>, JsonView), b: (Seq<char>, JsonView)) {
        crate::text::lemma_text_total(a.0, b.0);
    }

    proof fn leq_transitive(
        a: (Seq<char>, JsonView),
        b: (Seq<char>, JsonView),
        c: (Seq<char>, JsonView),
    ) {
        crate::text::lemma_text_transitive(a.0, b.0, c.0);
    }

    fn may_precede(&self, other: &(String, Json)) -> (r: bool) {
        at_most(self.0.as_str(), other.0.as_str())
    }
}

impl Sortable for (String, String) {
    open spec fn leq(a: (Seq<char>, Seq<char>), b: (Seq<char>, Seq<char>)) -> bool {
        text_leq(a.0, b.0)
    }

    proof fn leq_total(a: (Seq<char>, Seq<char>), b: (Seq<char>, Seq<char>)) {
        crate::text::lemma_text_total(a.0, b.0);
    }

    proof fn leq_transitive(
        a: (Seq<char>, Seq<char>),
        b: (Seq<char>, Seq<char>),
        c: (Seq<char>, Seq<char>),
    ) {
        crate::text::lemma_text_transitive(a.0, b.0, c.0);
    }

    fn may_precede(&self, other: &(String, String)) -> (r: bool) {
        at_most(self.0.as_str(), other.0.as_str())
    }
}

/// A new manifest: `name`, `version` and no dependencies.
pub open spec fn new_manifest(name: Seq<char>, version: Seq<char>) -> JsonView {
    JsonView::Object(
        seq![
            ("name"@, JsonView::Str(name)),
            ("version"@, JsonView::Str(version)),
            ("dependencies"@, JsonView::Object(Seq::empty())),
        ],
    )
}

/// The members of an object in the order of their keys.
pub open spec fn in_key_order(members: Seq<(Seq<char>, JsonView)>) -> Seq<(Seq<char>, JsonView)> {
    stable_sort::<(String, Json)>(members)
}

/// The dependencies `deps` with `range` for `name`, in the order of their names.
pub open spec fn with_dependency(
    deps: Seq<(Seq<char>, JsonView)>,
    name: Seq<char>,
    range: Seq<char>,
) -> Seq<(Seq<char>, JsonView)> {
    in_key_order(with_member(deps, name, JsonView::Str(range)))
}

/// The members that `dependencies` has in a manifest that may take a dependency: those of
/// its object, or none where there is no such field.
pub open spec fn dependency_members(members: Seq<(Seq<char>, JsonView)>) -> Option<
    Seq<(Seq<char>, JsonView)>,
> {
    match lookup(members, "dependencies"@) {
        Some(JsonView::Object(deps)) => Some(deps),
        Some(_) => None,
        None => Some(Seq::empty()),
    }
}

/// The manifest `doc` with `range` for the dependency `name`; `doc` itself where it is no
/// object or its `dependencies` are none.
pub open spec fn upserted(doc: JsonView, name: Seq<char>, range: Seq<char>) -> JsonView {
    match doc {
        JsonView::Object(members) => match dependency_members(members) {
            Some(deps) => JsonView::Object(
                with_member(
                    members,
                    "dependencies"@,
                    JsonView::Object(with_dependency(deps, name, range)),
                ),
            ),
            None => doc,
        },
        _ => doc,
    }
}

/// The dependencies of a manifest whose value is a text, in the order of their names.
pub open spec fn dependencies_of_manifest(doc: JsonView) -> Seq<(Seq<char>, Seq<char>)> {
    match doc.members("dependencies"@) {
        Some(members) => stable_sort::<(String, String)>(text_members_of(members)),
        None => Seq::empty(),
    }
}

/// A new manifest: `name`, `version` and no dependencies.
pub fn scaffold(name: &str, version: &str) -> (r: Json)
    ensures
        r.deep_view() == new_manifest(name@, version@),
{
    let mut m = no_members();
    put(&mut m, "name", Json::string(name));
    put(&mut m, "version", Json::string(version));
    put(&mut m, "dependencies", object(no_members()));
    assert(m.deep_view() =~= new_manifest(name@, version@)->Object_0);
    object(m)
}

/// The same members again.
fn copy_members(members: &Vec<(String, Json)>) -> (r: Vec<(String, Json)>)
    ensures
        r.deep_view() == members.deep_view(),
{
    let mut out = no_members();
    let mut i: usize = 0;
    while i < members.len()
        invariant
            i <= members.len(),
            out.deep_view() =~= members.deep_view().take(i as int),
        decreases members.len() - i,
    {
        put(&mut out, members[i].0.as_str(), members[i].1.copy());
        i += 1;
    }
    assert(out.deep_view() =~= members.deep_view());
    out
}

/// Puts the dependency `name` with `range` into a manifest, and its dependencies in the order
/// of their names. Every other field keeps its place.
pub fn upsert_dependency(doc: &mut Json, name: &str, range: &str)
    ensures
        final(doc).deep_view() == upserted(old(doc).deep_view(), name@, range@),
{
    broadcast use {crate::json::lemma_array_view, crate::json::lemma_object_view};

    match doc {
        Json::Object(members) => {
            let deps: Option<Vec<(String, Json)>> = match lookup_member(members, "dependencies") {
                Some(Json::Object(deps)) => Some(copy_members(deps)),
                Some(_) => None,
                None => Some(no_members()),
            };
            if let Some(deps) = deps {
                let mut deps = deps;
                set_member(&mut deps, name, Json::string(range));
                set_member(members, "dependencies", object(sort_stable(deps)));
            }
        },
        _ => {},
    }
}

/// The members of an object without those that have the key.
pub open spec fn without_member(
    members: Seq<(Seq<char>, JsonView)>,
    key: Seq<char>,
) -> Seq<(Seq<char>, JsonView)> {
    members.filter(|m: (Seq<char>, JsonView)| m.0 != key)
}

/// The manifest `doc` without the dependency `name`; `doc` itself where it has none of this
/// name.
pub open spec fn dropped(doc: JsonView, name: Seq<char>) -> JsonView {
    match doc {
        JsonView::Object(members) => match lookup(members, "dependencies"@) {
            Some(JsonView::Object(deps)) => if lookup(deps, name) is Some {
                JsonView::Object(
                    with_member(
                        members,
                        "dependencies"@,
                        JsonView::Object(without_member(deps, name)),
                    ),
                )
            } else {
                doc
            },
            _ => doc,
        },
        _ => doc,
    }
}

/// Whether a manifest has the dependency `name`.
pub open spec fn depends_on(doc: JsonView, name: Seq<char>) -> bool {
    match doc.members("dependencies"@) {
        Some(deps) => lookup(deps, name) is Some,
        None => false,
    }
}

/// The members of an object without those that have the key.
fn drop_member(members: &Vec<(String, Json)>, key: &str) -> (r: Vec<(String, Json)>)
    ensures
        r.deep_view() == without_member(members.deep_view(), key@),
{
    let ghost all = members.deep_view();
    let ghost keep = |m: (Seq<char>, JsonView)| m.0 != key@;
    let mut out = no_members();
    let mut i: usize = 0;
    assert(out.deep_view() =~= all.take(0).filter(keep)) by {
        reveal(Seq::filter);
    }
    while i < members.len()
        invariant
            i <= members@.len(),
            all == members.deep_view(),
            keep == (|m: (Seq<char>, JsonView)| m.0 != key@),
            out.deep_view() == all.take(i as int).filter(keep),
        decreases members@.len() - i,
    {
        proof {
            assert(all.take(i + 1) =~= all.take(i as int).push(all[i as int]));
            all.take(i as int).lemma_filter_push(all[i as int], keep);
        }
        if !same(members[i].0.as_str(), key) {
            put(&mut out, members[i].0.as_str(), members[i].1.copy());
        }
        i += 1;
    }
    assert(all.take(all.len() as int) =~= all);
    out
}

/// Drops the dependency `name` from a manifest, and says whether it had it. Everything else
/// keeps its place.
pub fn remove_dependency(doc: &mut Json, name: &str) -> (r: bool)
    ensures
        final(doc).deep_view() == dropped(old(doc).deep_view(), name@),
        r == depends_on(old(doc).deep_view(), name@),
{
    broadcast use {crate::json::lemma_array_view, crate::json::lemma_object_view};

    match doc {
        Json::Object(members) => {
            let deps: Option<Vec<(String, Json)>> = match lookup_member(members, "dependencies") {
                Some(Json::Object(deps)) => match lookup_member(deps, name) {
                    Some(_) => Some(drop_member(deps, name)),
                    None => None,
                },
                _ => None,
            };
            match deps {
                Some(deps) => {
                    set_member(members, "dependencies", object(deps));
                    true
                },
                None => false,
            }
        },
        _ => false,
    }
}

/// The dependencies of a manifest whose value is a text, in the order of their names.
pub fn dependencies(doc: &Json) -> (r: Vec<(String, String)>)
    ensures
        r.deep_view() == dependencies_of_manifest(doc.deep_view()),
{
    match doc.members("dependencies") {
        Some(members) => sort_stable(text_members(members)),
        None => {
            let r: Vec<(String, String)> = Vec::new();
            assert(r.deep_view() =~= Seq::<(Seq<char>, Seq<char>)>::empty());
            r
        },
    }
}

/// A manifest in writing, indented, with a line break at the end.
pub fn to_pretty(doc: &Json) -> (r: String)
    ensures
        r@ == pretty_text(normal(doc.deep_view())) + "\n"@,
        crate::json::is_tidy(doc.deep_view(), 127) ==> reads_as(r@, doc.deep_view()),
{
    proof {
        if crate::json::is_plain(doc.deep_view()) {
            crate::json::lemma_plain_is_normal(doc.deep_view());
        }
    }
    joined(doc.to_pretty().as_str(), "\n")
}

proof fn lemma_insert_lookup(
    s: Seq<(Seq<char>, JsonView)>,
    x: (Seq<char>, JsonView),
    key: Seq<char>,
)
    requires
        lookup(s, x.0) is None,
    ensures
        lookup(insert_sorted::<(String, Json)>(s, x), key) == (if key == x.0 {
            Some(x.1)
        } else {
            lookup(s, key)
        }),
    decreases s.len(),
{
    let r = insert_sorted::<(String, Json)>(s, x);
    if s.len() == 0 || text_leq(s.last().0, x.0) {
        assert(r.drop_last() =~= s);
    } else {
        lemma_insert_lookup(s.drop_last(), x, key);
        assert(r.drop_last() =~= insert_sorted::<(String, Json)>(s.drop_last(), x));
    }
}

/// Among distinct members the order does not matter for what a key has.
proof fn lemma_sorted_lookup(s: Seq<(Seq<char>, JsonView)>, key: Seq<char>)
    requires
        distinct_members(s),
    ensures
        lookup(in_key_order(s), key) == lookup(s, key),
    decreases s.len(),
{
    if s.len() > 0 {
        let front = s.drop_last();
        let last = s.last();
        assert(distinct_members(front)) by {
            assert forall|i: int, j: int| 0 <= i < j < front.len() implies #[trigger] front[i].0
                != #[trigger] front[j].0 by {
                assert(s[i].0 != s[j].0);
            }
        }
        assert forall|i: int| 0 <= i < front.len() implies #[trigger] front[i].0 != last.0 by {
            assert(s[i].0 != s[s.len() - 1].0);
        }
        crate::json::lemma_distinct_absent(front, last.0);
        lemma_sorted_lookup(front, last.0);
        lemma_sorted_lookup(front, key);
        lemma_insert_lookup(in_key_order(front), last, key);
    }
}

/// A dependency that is put in has its range, and every other dependency and every other
/// field has what it had.
pub proof fn upsert_sets_one_dependency(
    members: Seq<(Seq<char>, JsonView)>,
    name: Seq<char>,
    range: Seq<char>,
    other: Seq<char>,
    field: Seq<char>,
)
    requires
        dependency_members(members) is Some,
        distinct_members(dependency_members(members)->Some_0),
        other != name,
        field != "dependencies"@,
    ensures
        upserted(JsonView::Object(members), name, range).members("dependencies"@) is Some,
        ({
            let before = dependency_members(members)->Some_0;
            let after = upserted(JsonView::Object(members), name, range).members(
                "dependencies"@,
            )->Some_0;
            &&& lookup(after, name) == Some(JsonView::Str(range))
            &&& lookup(after, other) == lookup(before, other)
        }),
        upserted(JsonView::Object(members), name, range).get(field) == lookup(members, field),
{
    let deps = dependency_members(members)->Some_0;
    let value = JsonView::Object(with_dependency(deps, name, range));
    crate::json::lemma_with_member(members, "dependencies"@, value, "dependencies"@);
    crate::json::lemma_with_member(members, "dependencies"@, value, field);
    let set = with_member(deps, name, JsonView::Str(range));
    crate::json::lemma_with_member_distinct(deps, name, JsonView::Str(range));
    lemma_sorted_lookup(set, name);
    lemma_sorted_lookup(set, other);
    crate::json::lemma_with_member(deps, name, JsonView::Str(range), name);
    crate::json::lemma_with_member(deps, name, JsonView::Str(range), other);
}

/// Putting a dependency in leaves the fields of a manifest in their order; where there were
/// no `dependencies`, they come last. The dependencies stand in the order of their names.
pub proof fn upsert_keeps_field_order(
    members: Seq<(Seq<char>, JsonView)>,
    name: Seq<char>,
    range: Seq<char>,
)
    requires
        dependency_members(members) is Some,
    ensures
        upserted(JsonView::Object(members), name, range) is Object,
        ({
            let after = upserted(JsonView::Object(members), name, range)->Object_0;
            crate::json::keys_of(after) == (if lookup(members, "dependencies"@) is Some {
                crate::json::keys_of(members)
            } else {
                crate::json::keys_of(members).push("dependencies"@)
            })
        }),
        crate::sort::is_sorted::<(String, Json)>(
            with_dependency(dependency_members(members)->Some_0, name, range),
        ),
{
    let deps = dependency_members(members)->Some_0;
    crate::json::lemma_with_member_keys(
        members,
        "dependencies"@,
        JsonView::Object(with_dependency(deps, name, range)),
    );
    crate::sort::sorting_is_stable::<(String, Json)>(
        with_member(deps, name, JsonView::Str(range)),
    );
}

/// Among distinct members those whose value is a text are listed with it.
proof fn lemma_text_members(
    members: Seq<(Seq<char>, JsonView)>,
    name: Seq<char>,
    range: Seq<char>,
)
    requires
        distinct_members(members),
    ensures
        text_members_of(members).contains((name, range)) <==> lookup(members, name) == Some(
            JsonView::Str(range),
        ),
{
    let f = text_member();
    if text_members_of(members).contains((name, range)) {
        members.lemma_filter_map_contains(f, (name, range));
        let m = choose|m: (Seq<char>, JsonView)| members.contains(m) && f(m) == Some((name, range));
        let i = choose|i: int| 0 <= i < members.len() && members[i] == m;
        crate::json::lemma_distinct_lookup(members, i);
    }
    if lookup(members, name) == Some(JsonView::Str(range)) {
        let i = crate::json::lemma_lookup_index(members, name);
        lemma_mapped(members, f, i);
    }
}

/// Whether the dependencies stand in the order of their names, and no name twice.
pub open spec fn ascends(deps: Seq<(Seq<char>, Seq<char>)>) -> bool {
    forall|i: int, j: int|
        0 <= i < j < deps.len() ==> text_leq((#[trigger] deps[i]).0, (#[trigger] deps[j]).0)
            && deps[i].0 != deps[j].0
}

/// Of distinct members, the dependencies that are listed ascend, and are those whose value is a
/// text.
proof fn lemma_listed(members: Seq<(Seq<char>, JsonView)>)
    requires
        distinct_members(members),
    ensures
        ({
            let listed = stable_sort::<(String, String)>(text_members_of(members));
            &&& ascends(listed)
            &&& forall|name: Seq<char>, range: Seq<char>| #[trigger]
                listed.contains((name, range)) <==> lookup(members, name) == Some(
                    JsonView::Str(range),
                )
        }),
{
    let texts = text_members_of(members);
    let listed = stable_sort::<(String, String)>(texts);
    let key = |d: (Seq<char>, Seq<char>)| d.0;
    sorting_is_stable::<(String, String)>(texts);
    assert(differ_by(texts, key)) by {
        assert forall|i: int, j: int| 0 <= i < j < texts.len() implies key(#[trigger] texts[i])
            != key(#[trigger] texts[j]) by {
            let (k, l) = lemma_mapped_in_order(members, text_member(), i, j);
            assert(members[k].0 != members[l].0);
        }
    }
    lemma_sorted_differ::<(String, String), Seq<char>>(texts, key);
    assert forall|i: int, j: int| 0 <= i < j < listed.len() implies text_leq(
        (#[trigger] listed[i]).0,
        (#[trigger] listed[j]).0,
    ) && listed[i].0 != listed[j].0 by {
        assert(<(String, String)>::leq(listed[i], listed[j]));
        assert(key(listed[i]) != key(listed[j]));
    }
    assert forall|name: Seq<char>, range: Seq<char>| #[trigger]
        listed.contains((name, range)) <==> lookup(members, name) == Some(JsonView::Str(range)) by {
        lemma_text_members(members, name, range);
        if listed.contains((name, range)) {
            lemma_same_values(listed, texts, (name, range));
        }
        if texts.contains((name, range)) {
            lemma_same_values(texts, listed, (name, range));
        }
    }
}

/// Putting a dependency in makes of the list of dependencies the same list with that one name
/// set to its range, in the order of the names, each once. In the manifest itself the
/// dependencies stand in the order of their names too; every other field keeps its value and its
/// place, and where there were no `dependencies` they come last.
pub proof fn upsert_sets_one_of_the_list(
    members: Seq<(Seq<char>, JsonView)>,
    name: Seq<char>,
    range: Seq<char>,
)
    requires
        dependency_members(members) is Some,
        distinct_members(dependency_members(members)->Some_0),
    ensures
        ({
            let doc = JsonView::Object(members);
            let before = dependencies_of_manifest(doc);
            let after = dependencies_of_manifest(upserted(doc, name, range));
            &&& ascends(before)
            &&& ascends(after)
            &&& after.contains((name, range))
            &&& forall|n: Seq<char>, r: Seq<char>| #[trigger]
                after.contains((n, r)) <==> (if n == name {
                    r == range
                } else {
                    before.contains((n, r))
                })
        }),
        ({
            let after = upserted(JsonView::Object(members), name, range);
            let deps = after.members("dependencies"@);
            &&& after is Object
            &&& deps is Some
            &&& strictly_sorted(keys_of(deps->Some_0))
            &&& keys_of(after->Object_0) == (if lookup(members, "dependencies"@) is Some {
                keys_of(members)
            } else {
                keys_of(members).push("dependencies"@)
            })
            &&& forall|i: int|
                0 <= i < members.len() && members[i].0 != "dependencies"@
                    ==> #[trigger] after->Object_0[i] == members[i]
        }),
{
    let doc = JsonView::Object(members);
    let deps = dependency_members(members)->Some_0;
    let set = with_member(deps, name, JsonView::Str(range));
    let stored = with_dependency(deps, name, range);
    let value = JsonView::Object(stored);
    let after = upserted(doc, name, range);
    let key = |m: (Seq<char>, JsonView)| m.0;
    crate::json::lemma_with_member(members, "dependencies"@, value, "dependencies"@);
    crate::json::lemma_with_member_keys(members, "dependencies"@, value);
    crate::json::lemma_with_member_distinct(deps, name, JsonView::Str(range));
    sorting_is_stable::<(String, Json)>(set);
    assert(differ_by(set, key)) by {
        assert forall|i: int, j: int| 0 <= i < j < set.len() implies key(#[trigger] set[i]) != key(
            #[trigger] set[j],
        ) by {
            assert(set[i].0 != set[j].0);
        }
    }
    lemma_sorted_differ::<(String, Json), Seq<char>>(set, key);
    assert(distinct_members(stored)) by {
        assert forall|i: int, j: int| 0 <= i < j < stored.len() implies #[trigger] stored[i].0
            != #[trigger] stored[j].0 by {
            assert(key(stored[i]) != key(stored[j]));
        }
    }
    assert forall|i: int, j: int| 0 <= i < j < keys_of(stored).len() implies text_leq(
        #[trigger] keys_of(stored)[i],
        #[trigger] keys_of(stored)[j],
    ) && keys_of(stored)[i] != keys_of(stored)[j] by {
        assert(<(String, Json)>::leq(stored[i], stored[j]));
        assert(stored[i].0 != stored[j].0);
    }
    assert forall|i: int| 0 <= i < members.len() && members[i].0 != "dependencies"@ implies (
    #[trigger] after->Object_0[i]) == members[i] by {
        crate::json::lemma_with_member_others(members, "dependencies"@, value, i);
    }
    lemma_listed(stored);
    lemma_listed(deps);
    let listed = dependencies_of_manifest(doc);
    let relisted = dependencies_of_manifest(after);
    assert(relisted == stable_sort::<(String, String)>(text_members_of(stored)));
    if lookup(members, "dependencies"@) is None {
        assert(text_members_of(deps) =~= Seq::<(Seq<char>, Seq<char>)>::empty()) by {
            reveal(Seq::filter_map);
        }
    }
    assert(listed =~= stable_sort::<(String, String)>(text_members_of(deps)));
    assert forall|n: Seq<char>, r: Seq<char>| #[trigger]
        relisted.contains((n, r)) <==> (if n == name {
            r == range
        } else {
            listed.contains((n, r))
        }) by {
        lemma_sorted_lookup(set, n);
        crate::json::lemma_with_member(deps, name, JsonView::Str(range), n);
    }
}

/// Of two values that are set for a key the later one counts, and the place is the same.
proof fn lemma_set_twice(
    members: Seq<(Seq<char>, JsonView)>,
    key: Seq<char>,
    first: JsonView,
    second: JsonView,
)
    ensures
        with_member(with_member(members, key, first), key, second) == with_member(
            members,
            key,
            second,
        ),
    decreases members.len(),
{
    let once = with_member(members, key, first);
    let twice = with_member(once, key, second);
    if members.len() == 0 || members.last().0 == key || lookup(members.drop_last(), key) is None {
        assert(once.last() == (key, first));
        assert(twice =~= with_member(members, key, second));
    } else {
        let front = members.drop_last();
        lemma_set_twice(front, key, first, second);
        crate::json::lemma_with_member(front, key, first, key);
        assert(once.drop_last() =~= with_member(front, key, first));
        assert(once.last() == members.last());
        assert(twice =~= with_member(members, key, second));
    }
}

/// Where a member is put in order depends on the keys alone.
proof fn lemma_insert_by_keys(
    s: Seq<(Seq<char>, JsonView)>,
    t: Seq<(Seq<char>, JsonView)>,
    x: (Seq<char>, JsonView),
    y: (Seq<char>, JsonView),
)
    requires
        keys_of(s) == keys_of(t),
        x.0 == y.0,
    ensures
        keys_of(insert_sorted::<(String, Json)>(s, x)) == keys_of(
            insert_sorted::<(String, Json)>(t, y),
        ),
    decreases s.len(),
{
    assert(s.len() == keys_of(s).len() && t.len() == keys_of(t).len());
    let a = insert_sorted::<(String, Json)>(s, x);
    let b = insert_sorted::<(String, Json)>(t, y);
    if s.len() > 0 {
        assert(keys_of(s)[s.len() - 1] == keys_of(t)[t.len() - 1]);
        assert(keys_of(s.drop_last()) =~= keys_of(s).drop_last());
        assert(keys_of(t.drop_last()) =~= keys_of(t).drop_last());
        lemma_insert_by_keys(s.drop_last(), t.drop_last(), x, y);
        let p = insert_sorted::<(String, Json)>(s.drop_last(), x);
        let q = insert_sorted::<(String, Json)>(t.drop_last(), y);
        assert(keys_of(p.push(s.last())) =~= keys_of(p).push(s.last().0));
        assert(keys_of(q.push(t.last())) =~= keys_of(q).push(t.last().0));
    }
    assert(keys_of(s.push(x)) =~= keys_of(s).push(x.0));
    assert(keys_of(t.push(y)) =~= keys_of(t).push(y.0));
}

/// The order of members depends on the keys alone.
proof fn lemma_order_by_keys(s: Seq<(Seq<char>, JsonView)>, t: Seq<(Seq<char>, JsonView)>)
    requires
        keys_of(s) == keys_of(t),
    ensures
        keys_of(in_key_order(s)) == keys_of(in_key_order(t)),
    decreases s.len(),
{
    assert(s.len() == keys_of(s).len() && t.len() == keys_of(t).len());
    if s.len() > 0 {
        assert(keys_of(s.drop_last()) =~= keys_of(s).drop_last());
        assert(keys_of(t.drop_last()) =~= keys_of(t).drop_last());
        assert(keys_of(s)[s.len() - 1] == keys_of(t)[t.len() - 1]);
        lemma_order_by_keys(s.drop_last(), t.drop_last());
        lemma_insert_by_keys(
            in_key_order(s.drop_last()),
            in_key_order(t.drop_last()),
            s.last(),
            t.last(),
        );
    } else {
        assert(s =~= t);
    }
}

/// Whether no key comes twice depends on the keys alone.
proof fn lemma_distinct_by_keys(s: Seq<(Seq<char>, JsonView)>, t: Seq<(Seq<char>, JsonView)>)
    requires
        keys_of(s) == keys_of(t),
        distinct_members(s),
    ensures
        distinct_members(t),
{
    assert(s.len() == keys_of(s).len() && t.len() == keys_of(t).len());
    assert forall|i: int, j: int| 0 <= i < j < t.len() implies #[trigger] t[i].0
        != #[trigger] t[j].0 by {
        assert(keys_of(t)[i] == keys_of(s)[i] && keys_of(t)[j] == keys_of(s)[j]);
        assert(s[i].0 != s[j].0);
    }
}

/// Members with the same keys in the same order, each once, and the same values for them are
/// the same.
proof fn lemma_same_members(s: Seq<(Seq<char>, JsonView)>, t: Seq<(Seq<char>, JsonView)>)
    requires
        keys_of(s) == keys_of(t),
        distinct_members(s),
        forall|key: Seq<char>| #[trigger] lookup(s, key) == lookup(t, key),
    ensures
        s == t,
{
    assert(s.len() == keys_of(s).len() && t.len() == keys_of(t).len());
    lemma_distinct_by_keys(s, t);
    assert forall|i: int| 0 <= i < s.len() implies s[i] == t[i] by {
        assert(keys_of(s)[i] == keys_of(t)[i]);
        lemma_found(s, i);
        lemma_found(t, i);
        assert(lookup(s, s[i].0) == lookup(t, s[i].0));
    }
    assert(s =~= t);
}

/// Among distinct members each key leads to its value.
proof fn lemma_found(s: Seq<(Seq<char>, JsonView)>, i: int)
    requires
        distinct_members(s),
        0 <= i < s.len(),
    ensures
        lookup(s, s[i].0) == Some(s[i].1),
    decreases s.len(),
{
    if i < s.len() - 1 {
        let front = s.drop_last();
        assert(s[i].0 != s[s.len() - 1].0);
        assert(distinct_members(front)) by {
            assert forall|j: int, k: int| 0 <= j < k < front.len() implies #[trigger] front[j].0
                != #[trigger] front[k].0 by {
                assert(s[j].0 != s[k].0);
            }
        }
        lemma_found(front, i);
    }
}

/// Sorting keeps distinct members distinct.
proof fn lemma_sorted_distinct(s: Seq<(Seq<char>, JsonView)>)
    requires
        distinct_members(s),
    ensures
        distinct_members(in_key_order(s)),
{
    let t = in_key_order(s);
    crate::sort::sorting_is_stable::<(String, Json)>(s);
    assert forall|i: int, j: int| 0 <= i < j < t.len() implies #[trigger] t[i].0
        != #[trigger] t[j].0 by {
        if t[i].0 == t[j].0 {
            let ranks = crate::sort::ranks_with::<(String, Json)>(t[i]);
            crate::text::lemma_text_total(t[i].0, t[i].0);
            lemma_two_kept(t, ranks, i, j);
            lemma_one_kept(s, t[i].0, ranks);
        }
    }
}

/// Two members that are kept are both left.
proof fn lemma_two_kept<A>(s: Seq<A>, keep: spec_fn(A) -> bool, i: int, j: int)
    requires
        0 <= i < j < s.len(),
        keep(s[i]),
        keep(s[j]),
    ensures
        s.filter(keep).len() >= 2,
    decreases s.len(),
{
    reveal(Seq::filter);
    let front = s.drop_last();
    if j < s.len() - 1 {
        lemma_two_kept(front, keep, i, j);
    } else {
        front.lemma_filter_contains(keep, i);
        assert(front.filter(keep).len() >= 1);
    }
}

/// Of distinct members at most one has the rank of a key.
proof fn lemma_one_kept(
    s: Seq<(Seq<char>, JsonView)>,
    key: Seq<char>,
    keep: spec_fn((Seq<char>, JsonView)) -> bool,
)
    requires
        distinct_members(s),
        forall|m: (Seq<char>, JsonView)| #[trigger] keep(m) ==> text_leq(m.0, key) && text_leq(
            key,
            m.0,
        ),
    ensures
        s.filter(keep).len() <= 1,
    decreases s.len(),
{
    reveal(Seq::filter);
    if s.len() > 0 {
        let front = s.drop_last();
        assert(distinct_members(front)) by {
            assert forall|j: int, k: int| 0 <= j < k < front.len() implies #[trigger] front[j].0
                != #[trigger] front[k].0 by {
                assert(s[j].0 != s[k].0);
            }
        }
        lemma_one_kept(front, key, keep);
        if keep(s.last()) && front.filter(keep).len() > 0 {
            let m = front.filter(keep)[0];
            front.lemma_filter_contains_rev(keep, m);
            front.lemma_filter_pred(keep, 0);
            let i = choose|i: int| 0 <= i < front.len() && front[i] == m;
            crate::text::lemma_text_antisymmetric(m.0, key);
            crate::text::lemma_text_antisymmetric(s.last().0, key);
            assert(s[i].0 != s[s.len() - 1].0);
        }
    }
}

/// A dependency that is put in again takes the new range, as if it had never had the other.
pub proof fn the_last_upsert_counts(
    members: Seq<(Seq<char>, JsonView)>,
    name: Seq<char>,
    first: Seq<char>,
    second: Seq<char>,
)
    requires
        dependency_members(members) is Some,
        distinct_members(dependency_members(members)->Some_0),
    ensures
        upserted(upserted(JsonView::Object(members), name, first), name, second) == upserted(
            JsonView::Object(members),
            name,
            second,
        ),
{
    let deps = dependency_members(members)->Some_0;
    let one = with_dependency(deps, name, first);
    let two = with_dependency(one, name, second);
    let direct = with_dependency(deps, name, second);
    let after = with_member(members, "dependencies"@, JsonView::Object(one));
    crate::json::lemma_with_member(members, "dependencies"@, JsonView::Object(one), "dependencies"@);
    assert(dependency_members(after) == Some(one));

    let set_one = with_member(deps, name, JsonView::Str(first));
    let set_two = with_member(one, name, JsonView::Str(second));
    let set_direct = with_member(deps, name, JsonView::Str(second));
    crate::json::lemma_with_member_distinct(deps, name, JsonView::Str(first));
    crate::json::lemma_with_member_distinct(deps, name, JsonView::Str(second));
    lemma_sorted_distinct(set_one);
    crate::json::lemma_with_member_distinct(one, name, JsonView::Str(second));
    lemma_sorted_distinct(set_two);
    crate::json::lemma_with_member(deps, name, JsonView::Str(first), name);
    lemma_sorted_lookup(set_one, name);
    crate::json::lemma_with_member_keys(one, name, JsonView::Str(second));
    crate::json::lemma_with_member_keys(deps, name, JsonView::Str(first));
    crate::json::lemma_with_member_keys(deps, name, JsonView::Str(second));
    assert(keys_of(set_two) == keys_of(one));
    assert(keys_of(set_one) == keys_of(set_direct));
    crate::sort::sorting_is_stable::<(String, Json)>(set_one);
    lemma_resorted(set_two, one);
    lemma_order_by_keys(set_one, set_direct);
    assert(keys_of(two) == keys_of(direct));
    assert forall|key: Seq<char>| #[trigger] lookup(two, key) == lookup(direct, key) by {
        lemma_sorted_lookup(set_two, key);
        lemma_sorted_lookup(set_direct, key);
        lemma_sorted_lookup(set_one, key);
        crate::json::lemma_with_member(one, name, JsonView::Str(second), key);
        crate::json::lemma_with_member(deps, name, JsonView::Str(first), key);
        crate::json::lemma_with_member(deps, name, JsonView::Str(second), key);
    }
    lemma_same_members(two, direct);
    lemma_set_twice(members, "dependencies"@, JsonView::Object(one), JsonView::Object(two));
}

/// Members with the keys of sorted members stay in their order.
proof fn lemma_resorted(s: Seq<(Seq<char>, JsonView)>, sorted: Seq<(Seq<char>, JsonView)>)
    requires
        keys_of(s) == keys_of(sorted),
        crate::sort::is_sorted::<(String, Json)>(sorted),
    ensures
        in_key_order(s) == s,
{
    assert(s.len() == keys_of(s).len() && sorted.len() == keys_of(sorted).len());
    assert forall|i: int, j: int| 0 <= i <= j < s.len() implies <(String, Json)>::leq(
        #[trigger] s[i],
        #[trigger] s[j],
    ) by {
        assert(keys_of(s)[i] == keys_of(sorted)[i] && keys_of(s)[j] == keys_of(sorted)[j]);
        assert(<(String, Json)>::leq(sorted[i], sorted[j]));
    }
    crate::sort::lemma_sorted_stays::<(String, Json)>(s);
}

} // verus!
