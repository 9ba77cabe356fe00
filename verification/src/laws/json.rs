//! What counts of a JSON document.

use crate::json::{lookup, optional_member, text_members_of, texts_of, JsonView};
use vstd::prelude::*;

verus! {

/// Of the members with a key the last one counts.
pub proof fn the_last_member_counts(members: Seq<(Seq<char>, JsonView)>, key: Seq<char>, i: int)
    requires
        0 <= i < members.len(),
        members[i].0 == key,
        forall|j: int| i < j < members.len() ==> (#[trigger] members[j]).0 != key,
    ensures
        JsonView::Object(members).get(key) == Some(members[i].1),
        lookup(members, key) == Some(members[i].1),
    decreases members.len(),
{
    if i < members.len() - 1 {
        assert(members.last() == members[members.len() - 1]);
        let front = members.drop_last();
        assert forall|j: int| i < j < front.len() implies (#[trigger] front[j]).0 != key by {
            assert(front[j] == members[j]);
        }
        the_last_member_counts(front, key, i);
    }
}

/// A key that no member has has no value, and what is no object has no members.
pub proof fn a_key_of_no_member_has_no_value(json: JsonView, key: Seq<char>)
    requires
        json matches JsonView::Object(members) ==> forall|j: int|
            0 <= j < members.len() ==> (#[trigger] members[j]).0 != key,
    ensures
        json.get(key) is None,
        json.text(key) is None,
        json.items(key) is None,
        json.members(key) is None,
{
    if let JsonView::Object(members) = json {
        crate::json::lemma_distinct_absent(members, key);
    }
}

/// What is read of a member is its text, its items or its members, whichever it has.
pub proof fn a_member_is_read_as_what_it_is(json: JsonView, key: Seq<char>, value: JsonView)
    requires
        json.get(key) == Some(value),
    ensures
        forall|s: Seq<char>| json.text(key) == Some(s) <==> value == JsonView::Str(s),
        forall|items: Seq<JsonView>|
            json.items(key) == Some(items) <==> value == JsonView::Array(items),
        forall|members: Seq<(Seq<char>, JsonView)>|
            json.members(key) == Some(members) <==> value == JsonView::Object(members),
{
}

/// The text members of an object are the members that are texts, all of them, in their order,
/// each with its own key and text.
pub proof fn each_text_member_is_listed(members: Seq<(Seq<char>, JsonView)>)
    ensures
        ({
            let kept = members.filter(|m: (Seq<char>, JsonView)| m.1 is Str);
            let listed = text_members_of(members);
            &&& listed.len() == kept.len()
            &&& forall|j: int|
                0 <= j < kept.len() ==> (#[trigger] listed[j]).0 == kept[j].0 && kept[j].1
                    == JsonView::Str(listed[j].1)
        }),
    decreases members.len(),
{
    let p = |m: (Seq<char>, JsonView)| m.1 is Str;
    reveal(Seq::filter);
    reveal(Seq::filter_map);
    if members.len() > 0 {
        each_text_member_is_listed(members.drop_last());
    }
}

/// The texts of an array are its items that are texts, all of them, in their order.
pub proof fn each_text_item_is_listed(items: Seq<JsonView>)
    ensures
        ({
            let kept = items.filter(|item: JsonView| item is Str);
            let listed = texts_of(items);
            &&& listed.len() == kept.len()
            &&& forall|j: int|
                0 <= j < kept.len() ==> kept[j] == JsonView::Str(#[trigger] listed[j])
        }),
    decreases items.len(),
{
    reveal(Seq::filter);
    reveal(Seq::filter_map);
    if items.len() > 0 {
        each_text_item_is_listed(items.drop_last());
    }
}

/// A member that is a text is among the text members.
pub proof fn a_text_member_is_listed(members: Seq<(Seq<char>, JsonView)>, i: int) -> (j: int)
    requires
        0 <= i < members.len(),
        members[i].1 is Str,
    ensures
        0 <= j < text_members_of(members).len(),
        text_members_of(members)[j].0 == members[i].0,
        members[i].1 == JsonView::Str(text_members_of(members)[j].1),
    decreases members.len(),
{
    reveal(Seq::filter_map);
    if i < members.len() - 1 {
        a_text_member_is_listed(members.drop_last(), i)
    } else {
        text_members_of(members).len() - 1
    }
}

/// What two members have under a key.
pub proof fn lemma_lookup_two(x: (Seq<char>, JsonView), y: (Seq<char>, JsonView), key: Seq<char>)
    ensures
        lookup(seq![x, y], key) == if y.0 == key {
            Some(y.1)
        } else if x.0 == key {
            Some(x.1)
        } else {
            None
        },
{
    reveal_with_fuel(lookup, 3);
    assert(seq![x, y].drop_last() =~= seq![x]);
    assert(seq![x].drop_last() =~= Seq::<(Seq<char>, JsonView)>::empty());
}

/// What members have under a key, with one behind them that may be missing.
pub proof fn lemma_lookup_optional(
    members: Seq<(Seq<char>, JsonView)>,
    name: Seq<char>,
    value: Option<JsonView>,
    key: Seq<char>,
)
    ensures
        lookup(members + optional_member(name, value), key) == if key == name && value is Some {
            value
        } else {
            lookup(members, key)
        },
{
    crate::json::lemma_lookup_concat(members, optional_member(name, value), key);
    reveal_with_fuel(lookup, 2);
}

} // verus!
