//! Where the entry points of a package lead.

use crate::json::{lookup, JsonView};
use crate::laws::text::{
    a_character_is_found, a_missing_character_is_not_found, a_separator_parts_the_pieces,
    each_occurrence_is_replaced, what_does_not_occur_is_not_replaced,
    without_a_separator_there_is_one_piece,
};
use crate::package_json::exports::{
    browser_substitute, by_best_pattern, by_pattern, entries_of, entry_of, leads_up, main_of,
    maps_subpaths, pattern_dir, safe, selected, selected_from, selected_under, subpath_of,
    EntryView,
};
use crate::package_json::license_in;
use crate::sort::lemma_mapped;
use crate::text::{find, split_at_char};
use vstd::prelude::*;
use vstd::string::*;

verus! {

/// A path leads up where a segment of it does, and no other does than `..`.
pub proof fn only_dots_lead_up(x: Seq<char>, y: Seq<char>)
    ensures
        leads_up(x.push('/') + y) <==> leads_up(x) || leads_up(y),
        (forall|i: int| 0 <= i < x.len() ==> #[trigger] x[i] != '/') ==> (leads_up(x) <==> x
            == ".."@),
{
    a_separator_parts_the_pieces(x, y, '/');
    let a = split_at_char(x, '/');
    let b = split_at_char(y, '/');
    if leads_up(x) {
        let k = choose|k: int| 0 <= k < a.len() && a[k] == ".."@;
        assert((a + b)[k] == ".."@);
    }
    if leads_up(y) {
        let k = choose|k: int| 0 <= k < b.len() && b[k] == ".."@;
        assert((a + b)[a.len() + k] == ".."@);
    }
    if leads_up(x.push('/') + y) {
        let k = choose|k: int| 0 <= k < (a + b).len() && (a + b)[k] == ".."@;
        if k < a.len() {
            assert(a[k] == ".."@);
        } else {
            assert(b[k - a.len()] == ".."@);
        }
    }
    if forall|i: int| 0 <= i < x.len() ==> #[trigger] x[i] != '/' {
        without_a_separator_there_is_one_piece(x, '/');
        assert(seq![x][0] == x);
    }
}

/// Whether a text of a manifest leads to the path `path` in the package: the path itself, or with
/// a `./` or a slash before it.
pub open spec fn leads_to(text: Seq<char>, path: Seq<char>) -> bool {
    &&& path.len() > 0
    &&& path[0] != '/'
    &&& !leads_up(path)
    &&& text == "./"@ + path || (text == path && !"./"@.is_prefix_of(path)) || text == "/"@ + path
}

proof fn lemma_leads_to(text: Seq<char>, path: Seq<char>)
    requires
        leads_to(text, path),
    ensures
        safe(text) == Some(path),
{
    reveal_strlit("./");
    reveal_strlit("/");
    assert("./"@ =~= seq!['.', '/']);
    assert("/"@ =~= seq!['/']);
    reveal_with_fuel(crate::text::trim_start_where, 3);
    if text == "./"@ + path {
        assert("./"@.is_prefix_of(text)) by {
            assert(text.subrange(0, 2) =~= "./"@);
        }
        assert(text.skip(2) =~= path);
    } else if text == "/"@ + path && !(text == path) {
        assert(text[0] == '/');
        assert(!"./"@.is_prefix_of(text));
        assert(text.drop_first() =~= path);
    }
}

/// Whether a manifest has no `exports` that count.
pub open spec fn exports_nothing(raw: JsonView) -> bool {
    match raw.get("exports"@) {
        Some(JsonView::Str(_)) => false,
        Some(JsonView::Object(_)) => false,
        _ => true,
    }
}

/// Whether a member of a manifest is a text.
pub open spec fn has_text(raw: JsonView, key: Seq<char>) -> bool {
    raw.get(key) matches Some(JsonView::Str(_))
}

/// A package without `exports`, `module` and `browser` is entered by its `main`.
pub proof fn main_is_the_entry(raw: JsonView, text: Seq<char>, path: Seq<char>)
    requires
        exports_nothing(raw),
        !has_text(raw, "module"@),
        !has_text(raw, "browser"@),
        !(raw.get("browser"@) matches Some(JsonView::Object(_))),
        raw.get("main"@) == Some(JsonView::Str(text)),
        leads_to(text, path),
    ensures
        main_of(raw) == Some(path),
        entries_of(raw) == seq![EntryView::Bare(path)],
{
    lemma_leads_to(text, path);
}

/// A package without `exports` is entered by its `module`, whatever its `browser` and `main` are.
pub proof fn module_comes_before_browser_and_main(
    raw: JsonView,
    text: Seq<char>,
    path: Seq<char>,
)
    requires
        exports_nothing(raw),
        raw.get("module"@) == Some(JsonView::Str(text)),
        leads_to(text, path),
    ensures
        main_of(raw) == Some(path),
        entries_of(raw) == seq![EntryView::Bare(path)],
{
    lemma_leads_to(text, path);
}

/// A package without `exports` and `module` is entered by its `browser`, where that is a text,
/// whatever its `main` is.
pub proof fn browser_comes_before_main(raw: JsonView, text: Seq<char>, path: Seq<char>)
    requires
        exports_nothing(raw),
        !has_text(raw, "module"@),
        raw.get("browser"@) == Some(JsonView::Str(text)),
        leads_to(text, path),
    ensures
        main_of(raw) == Some(path),
        entries_of(raw) == seq![EntryView::Bare(path)],
{
    lemma_leads_to(text, path);
}

/// A `browser` map puts what it maps the path of `main` to in its place, by the first member on
/// that path.
pub proof fn a_browser_map_replaces_main(
    raw: JsonView,
    main: Seq<char>,
    path: Seq<char>,
    members: Seq<(Seq<char>, JsonView)>,
    k: int,
    text: Seq<char>,
    target: Seq<char>,
)
    requires
        exports_nothing(raw),
        !has_text(raw, "module"@),
        raw.get("main"@) == Some(JsonView::Str(main)),
        leads_to(main, path),
        raw.get("browser"@) == Some(JsonView::Object(members)),
        0 <= k < members.len(),
        leads_to(members[k].0, path),
        members[k].1 == JsonView::Str(text),
        leads_to(text, target),
        forall|i: int|
            0 <= i < k ==> safe((#[trigger] members[i]).0) != Some(path) || !(members[i].1 is Str),
    ensures
        main_of(raw) == Some(target),
        entries_of(raw) == seq![EntryView::Bare(target)],
{
    lemma_leads_to(main, path);
    lemma_leads_to(members[k].0, path);
    lemma_leads_to(text, target);
    lemma_substitute(members, path, 0, k);
}

proof fn lemma_substitute(members: Seq<(Seq<char>, JsonView)>, path: Seq<char>, from: int, k: int)
    requires
        0 <= from <= k < members.len(),
        safe(members[k].0) == Some(path),
        members[k].1 is Str,
        forall|i: int|
            from <= i < k ==> safe((#[trigger] members[i]).0) != Some(path) || !(members[i].1
                is Str),
    ensures
        browser_substitute(members, path, from) == Some(members[k].1->Str_0),
    decreases k - from,
{
    if from < k {
        assert(safe(members[from].0) != Some(path) || !(members[from].1 is Str));
        lemma_substitute(members, path, from + 1, k);
    }
}

/// A `browser` map that has no text for the path of `main` leaves it as it is.
pub proof fn another_browser_map_leaves_main(
    raw: JsonView,
    main: Seq<char>,
    path: Seq<char>,
    members: Seq<(Seq<char>, JsonView)>,
)
    requires
        exports_nothing(raw),
        !has_text(raw, "module"@),
        raw.get("main"@) == Some(JsonView::Str(main)),
        leads_to(main, path),
        raw.get("browser"@) == Some(JsonView::Object(members)),
        forall|i: int|
            0 <= i < members.len() ==> safe((#[trigger] members[i]).0) != Some(path) || !(
            members[i].1 is Str),
    ensures
        main_of(raw) == Some(path),
        entries_of(raw) == seq![EntryView::Bare(path)],
{
    lemma_leads_to(main, path);
    lemma_no_substitute(members, path, 0);
}

proof fn lemma_no_substitute(members: Seq<(Seq<char>, JsonView)>, path: Seq<char>, from: int)
    requires
        0 <= from,
        forall|i: int|
            0 <= i < members.len() ==> safe((#[trigger] members[i]).0) != Some(path) || !(
            members[i].1 is Str),
    ensures
        browser_substitute(members, path, from) is None,
    decreases members.len() - from,
{
    if from < members.len() {
        assert(safe(members[from].0) != Some(path) || !(members[from].1 is Str));
        lemma_no_substitute(members, path, from + 1);
    }
}

/// A text is the target itself; a number, a boolean and nothing have none.
pub proof fn a_text_is_its_target(node: JsonView)
    ensures
        node matches JsonView::Str(s) ==> selected(node) == Some(s),
        node is Null || node is Bool || node is Number ==> selected(node) is None,
{
}

/// Of the conditions the first that has a target counts: `browser`, `module`, `import`, `default`.
pub proof fn conditions_count_in_order(members: Seq<(Seq<char>, JsonView)>)
    ensures
        ({
            let target = |key: Seq<char>|
                match lookup(members, key) {
                    Some(node) => selected(node),
                    None => None,
                };
            let found = selected(JsonView::Object(members));
            &&& target("browser"@) is Some ==> found == target("browser"@)
            &&& target("browser"@) is None && target("module"@) is Some ==> found == target(
                "module"@,
            )
            &&& target("browser"@) is None && target("module"@) is None && target("import"@)
                is Some ==> found == target("import"@)
            &&& target("browser"@) is None && target("module"@) is None && target("import"@)
                is None ==> found == target("default"@)
        }),
{
    reveal_with_fuel(selected_under, 2);
}

/// Of the items of an array the first that has a target counts.
pub proof fn the_first_item_with_a_target_counts(items: Seq<JsonView>, k: int)
    requires
        0 <= k <= items.len(),
        forall|i: int| 0 <= i < k ==> selected(#[trigger] items[i]) is None,
        k < items.len() ==> selected(items[k]) is Some,
    ensures
        selected(JsonView::Array(items)) == if k < items.len() {
            selected(items[k])
        } else {
            None
        },
{
    lemma_selected_from(items, 0, k);
}

proof fn lemma_selected_from(items: Seq<JsonView>, from: int, k: int)
    requires
        0 <= from <= k <= items.len(),
        forall|i: int| 0 <= i < k ==> selected(#[trigger] items[i]) is None,
        k < items.len() ==> selected(items[k]) is Some,
    ensures
        selected_from(items, from) == if k < items.len() {
            selected(items[k])
        } else {
            None
        },
    decreases k - from,
{
    reveal_with_fuel(selected_from, 2);
    if from < k {
        assert(selected(items[from]) is None);
        lemma_selected_from(items, from + 1, k);
    }
}

/// A package with `exports` is entered by them alone: by the text that they are, by what is under
/// their `.`, or, where no key of them begins with a dot, by their conditions.
pub proof fn exports_come_first(raw: JsonView, text: Seq<char>, path: Seq<char>)
    requires
        match raw.get("exports"@) {
            Some(JsonView::Str(s)) => s == text,
            Some(JsonView::Object(members)) => if exists|i: int|
                0 <= i < members.len() && (#[trigger] members[i]).0.len() > 0 && members[i].0[0]
                    == '.' {
                lookup(members, "."@) matches Some(node) && selected(node) == Some(text)
            } else {
                selected(JsonView::Object(members)) == Some(text)
            },
            _ => false,
        },
        leads_to(text, path),
    ensures
        main_of(raw) == Some(path),
{
    lemma_leads_to(text, path);
    if let Some(JsonView::Object(members)) = raw.get("exports"@) {
        lemma_maps_subpaths(members);
    }
}

proof fn lemma_maps_subpaths(members: Seq<(Seq<char>, JsonView)>)
    ensures
        maps_subpaths(members) <==> exists|i: int|
            0 <= i < members.len() && (#[trigger] members[i]).0.len() > 0 && members[i].0[0] == '.',
{
    reveal_strlit(".");
    assert("."@ =~= seq!['.']);
    assert forall|s: Seq<char>| #[trigger] "."@.is_prefix_of(s) <==> s.len() > 0 && s[0]
        == '.' by {
        if s.len() > 0 && s[0] == '.' {
            assert("."@ =~= s.subrange(0, "."@.len() as int));
        }
        if "."@.is_prefix_of(s) {
            assert(s.subrange(0, "."@.len() as int)[0] == "."@[0]);
        }
    }
    if maps_subpaths(members) {
        let i = choose|i: int|
            0 <= i < members.len() && "."@.is_prefix_of((#[trigger] members[i]).0);
        assert(members[i].0[0] == '.');
    }
}

/// A subpath that `exports` has a key for leads to the target under that key, whatever patterns
/// there are.
pub proof fn a_listed_subpath_leads_to_its_target(
    raw: JsonView,
    members: Seq<(Seq<char>, JsonView)>,
    subpath: Seq<char>,
    node: JsonView,
    text: Seq<char>,
    path: Seq<char>,
)
    requires
        raw.get("exports"@) == Some(JsonView::Object(members)),
        lookup(members, "./"@ + subpath) == Some(node),
        selected(node) == Some(text),
        leads_to(text, path),
    ensures
        subpath_of(raw, "./"@ + subpath) == Some(path),
        subpath.len() > 0 && subpath[0] != '/' && !"./"@.is_prefix_of(subpath) ==> subpath_of(
            raw,
            subpath,
        ) == Some(path),
{
    reveal_strlit("./");
    lemma_leads_to(text, path);
    let key = "./"@ + subpath;
    assert(key.subrange(0, 2) =~= "./"@);
    let i = crate::json::lemma_lookup_index(members, key);
    assert("./"@[0] == '.');
    lemma_maps_subpaths(members);
    assert(members[i].0[0] == '.');
}

/// A subpath that `exports` has no key for leads where the pattern leads that it matches, what the
/// `*` stands for in the place of the `*` of the target, where no other pattern has as much before
/// its `*`.
pub proof fn a_pattern_leads_to_its_target(
    raw: JsonView,
    members: Seq<(Seq<char>, JsonView)>,
    i: int,
    before: Seq<char>,
    behind: Seq<char>,
    middle: Seq<char>,
    target_before: Seq<char>,
    target_behind: Seq<char>,
    path: Seq<char>,
)
    requires
        raw.get("exports"@) == Some(JsonView::Object(members)),
        0 <= i < members.len(),
        "./"@.is_prefix_of(before),
        members[i].0 == before + "*"@ + behind,
        forall|j: int| 0 <= j < before.len() ==> #[trigger] before[j] != '*',
        selected(members[i].1) == Some(target_before + "*"@ + target_behind),
        forall|j: int| 0 <= j < target_before.len() ==> #[trigger] target_before[j] != '*',
        forall|j: int| 0 <= j < target_behind.len() ==> #[trigger] target_behind[j] != '*',
        lookup(members, before + middle + behind) is None,
        leads_to(target_before + middle + target_behind, path),
        forall|j: int|
            0 <= j < members.len() && j != i ==> (find((#[trigger] members[j]).0, "*"@) matches Some(
                star,
            ) ==> star < before.len()),
    ensures
        subpath_of(raw, before + middle + behind) == Some(path),
{
    reveal_strlit("*");
    reveal_strlit("./");
    assert("*"@ =~= seq!['*']);
    let key = before + middle + behind;
    let pattern = members[i].0;
    a_character_is_found(before, behind, "*"@);
    assert(pattern.take(before.len() as int) =~= before);
    assert(pattern.skip((before.len() + 1) as int) =~= behind);
    assert(key.subrange(0, before.len() as int) =~= before);
    assert(key.subrange(key.len() - behind.len(), key.len() as int) =~= behind);
    assert(key.subrange(before.len() as int, key.len() - behind.len()) =~= middle);
    let target = target_before + "*"@ + target_behind;
    assert(target =~= target_before.push('*') + target_behind);
    each_occurrence_is_replaced(target_before, target_behind, '*', middle);
    what_does_not_occur_is_not_replaced(target_before, '*', middle);
    what_does_not_occur_is_not_replaced(target_behind, '*', middle);
    lemma_leads_to(target_before + middle + target_behind, path);
    assert(by_pattern(members[i], key) == Some((before.len() as int, path)));
    lemma_best(members, key, i);
    lemma_maps_subpaths(members);
    assert(before.subrange(0, 2) =~= "./"@);
    assert(members[i].0[0] == before[0]);
    assert(key.subrange(0, 2) =~= "./"@);
}

proof fn lemma_best(members: Seq<(Seq<char>, JsonView)>, key: Seq<char>, i: int)
    requires
        0 <= i < members.len(),
        by_pattern(members[i], key) is Some,
        forall|j: int|
            0 <= j < members.len() && j != i ==> (find((#[trigger] members[j]).0, "*"@) matches Some(
                star,
            ) ==> star < by_pattern(members[i], key)->Some_0.0),
    ensures
        by_best_pattern(members, key) == by_pattern(members[i], key),
    decreases members.len(),
{
    let front = members.drop_last();
    let n = members.len() - 1;
    if i < n {
        assert forall|j: int| 0 <= j < front.len() && j != i implies (find(
            (#[trigger] front[j]).0,
            "*"@,
        ) matches Some(star) ==> star < by_pattern(front[i], key)->Some_0.0) by {
            assert(front[j] == members[j]);
        }
        lemma_best(front, key, i);
        assert(members[n] == members.last());
    } else {
        assert forall|j: int| 0 <= j < front.len() implies (find(
            (#[trigger] front[j]).0,
            "*"@,
        ) matches Some(star) ==> star < by_pattern(members[i], key)->Some_0.0) by {
            assert(front[j] == members[j]);
        }
        lemma_less(front, key, by_pattern(members[i], key)->Some_0.0);
    }
}

proof fn lemma_less(members: Seq<(Seq<char>, JsonView)>, key: Seq<char>, bound: int)
    requires
        forall|j: int|
            0 <= j < members.len() ==> (find((#[trigger] members[j]).0, "*"@) matches Some(star)
                ==> star < bound),
    ensures
        by_best_pattern(members, key) matches Some((n, _)) ==> n < bound,
    decreases members.len(),
{
    if members.len() > 0 {
        let front = members.drop_last();
        assert forall|j: int| 0 <= j < front.len() implies (find(
            (#[trigger] front[j]).0,
            "*"@,
        ) matches Some(star) ==> star < bound) by {
            assert(front[j] == members[j]);
        }
        lemma_less(front, key, bound);
        assert(members[members.len() - 1] == members.last());
    }
}

/// Each subpath that `exports` has a target for is among the entries, with that target.
pub proof fn each_listed_subpath_is_an_entry(
    raw: JsonView,
    members: Seq<(Seq<char>, JsonView)>,
    i: int,
    subpath: Seq<char>,
    text: Seq<char>,
    path: Seq<char>,
)
    requires
        raw.get("exports"@) == Some(JsonView::Object(members)),
        0 <= i < members.len(),
        members[i].0 == "./"@ + subpath,
        forall|j: int| 0 <= j < subpath.len() ==> #[trigger] subpath[j] != '*',
        selected(members[i].1) == Some(text),
        leads_to(text, path),
    ensures
        entries_of(raw).contains(EntryView::Subpath { subpath, target: path }),
{
    reveal_strlit("./");
    reveal_strlit(".");
    reveal_strlit("*");
    lemma_leads_to(text, path);
    let key = members[i].0;
    assert(key.subrange(0, 2) =~= "./"@);
    assert(key.skip(2) =~= subpath);
    assert("."@.len() != key.len());
    a_missing_character_is_not_found(subpath, "*"@);
    lemma_maps_subpaths(members);
    assert("./"@[0] == '.');
    assert(members[i].0[0] == '.');
    lemma_mapped(members, entry_of(), i);
}

/// A directory that `exports` opens by a pattern is among the entries: what begins as the pattern
/// does is in the directory before the `*` of its target.
pub proof fn each_pattern_is_an_entry(
    raw: JsonView,
    members: Seq<(Seq<char>, JsonView)>,
    i: int,
    before: Seq<char>,
    behind: Seq<char>,
    dir: Seq<char>,
    rest: Seq<char>,
)
    requires
        raw.get("exports"@) == Some(JsonView::Object(members)),
        0 <= i < members.len(),
        members[i].0 == "./"@ + before + "*"@ + behind,
        forall|j: int| 0 <= j < before.len() ==> #[trigger] before[j] != '*',
        selected(members[i].1) == Some("./"@ + dir + "*"@ + rest),
        forall|j: int| 0 <= j < dir.len() ==> #[trigger] dir[j] != '*',
        dir.len() > 0,
        dir[0] != '/',
        !leads_up(dir),
    ensures
        entries_of(raw).contains(EntryView::Prefix { subpath: before, dir }),
{
    reveal_strlit("./");
    reveal_strlit(".");
    reveal_strlit("*");
    assert("./"@ =~= seq!['.', '/']);
    assert("*"@ =~= seq!['*']);
    let key = members[i].0;
    assert(key.subrange(0, 2) =~= "./"@);
    assert(key.skip(2) =~= before + "*"@ + behind);
    a_character_is_found(before, behind, "*"@);
    assert((before + "*"@ + behind).take(before.len() as int) =~= before);
    let head = "./"@ + dir;
    let target = head + "*"@ + rest;
    assert forall|j: int| 0 <= j < head.len() implies #[trigger] head[j] != '*' by {
        if j >= 2 {
            assert(head[j] == dir[j - 2]);
        }
    }
    a_character_is_found(head, rest, "*"@);
    assert(target.take(head.len() as int) =~= head);
    assert(head.subrange(0, 2) =~= "./"@);
    assert(head.skip(2) =~= dir);
    assert(pattern_dir(target) == Some(dir));
    lemma_maps_subpaths(members);
    assert(members[i].0[0] == '.');
    lemma_mapped(members, entry_of(), i);
}

/// A license is what is declared: a text, the `type` of an object, or else the types of the legacy
/// list with ` OR ` between them.
pub proof fn a_license_is_what_is_declared(value: JsonView)
    ensures
        match value.get("license"@) {
            Some(JsonView::Str(s)) => license_in(value) == Some(s),
            Some(JsonView::Object(o)) => match JsonView::Object(o).get("type"@) {
                Some(JsonView::Str(s)) => license_in(value) == Some(s),
                _ => true,
            },
            _ => value.get("licenses"@) is None ==> license_in(value) is None,
        },
{
}

/// A license of the legacy list alone is its type.
pub proof fn a_legacy_license_is_its_type(value: JsonView, legacy: JsonView, license: Seq<char>)
    requires
        value.get("license"@) is None,
        value.get("licenses"@) == Some(JsonView::Array(seq![legacy])),
        legacy.get("type"@) == Some(JsonView::Str(license)),
    ensures
        license_in(value) == Some(license),
{
    Seq::<JsonView>::lemma_filter_map_singleton(legacy, crate::package_json::license_type());
    assert(seq![legacy].filter_map(crate::package_json::license_type()) =~= seq![license]);
    crate::laws::osv::lemma_join_one(license, " OR "@);
}

} // verus!
