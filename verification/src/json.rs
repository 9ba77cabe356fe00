//! JSON documents as plain values, and the reader and printer of `serde_json`.

use crate::text::same;
use serde_json::Value;
use vstd::prelude::*;

verus! {

/// A JSON number.
#[derive(Debug, PartialEq, Eq)]
pub enum Number {
    /// An integer from zero up.
    Unsigned(u64),
    /// An integer below zero.
    Negative(i64),
    /// Every other number, in the decimal notation that it is printed in.
    Float(String),
}

/// What a [`Number`] holds.
#[verifier::ext_equal]
pub enum NumberView {
    Unsigned(u64),
    Negative(i64),
    Float(Seq<char>),
}

/// A JSON document. The members of an object stand in the order of the document;
/// where two have the same key, the later one counts.
#[derive(Debug, PartialEq, Eq)]
pub enum Json {
    Null,
    Bool(bool),
    Number(Number),
    Str(String),
    Array(Vec<Json>),
    Object(Vec<(String, Json)>),
}

/// What a [`Json`] holds.
#[verifier::ext_equal]
pub enum JsonView {
    Null,
    Bool(bool),
    Number(NumberView),
    Str(Seq<char>),
    Array(Seq<JsonView>),
    Object(Seq<(Seq<char>, JsonView)>),
}

impl DeepView for Number {
    type V = NumberView;

    open spec fn deep_view(&self) -> NumberView {
        match *self {
            Number::Unsigned(n) => NumberView::Unsigned(n),
            Number::Negative(n) => NumberView::Negative(n),
            Number::Float(t) => NumberView::Float(t@),
        }
    }
}

/// What the document `json` holds.
pub open spec fn json_view(json: Json) -> JsonView
    decreases json,
{
    match json {
        Json::Null => JsonView::Null,
        Json::Bool(b) => JsonView::Bool(b),
        Json::Number(n) => JsonView::Number(n.deep_view()),
        Json::Str(s) => JsonView::Str(s@),
        Json::Array(items) => JsonView::Array(
            Seq::new(
                items@.len(),
                |i: int|
                    if 0 <= i < items@.len() {
                        json_view(items@[i])
                    } else {
                        JsonView::Null
                    },
            ),
        ),
        Json::Object(members) => JsonView::Object(
            Seq::new(
                members@.len(),
                |i: int|
                    if 0 <= i < members@.len() {
                        (members@[i].0@, json_view(members@[i].1))
                    } else {
                        (Seq::empty(), JsonView::Null)
                    },
            ),
        ),
    }
}

impl DeepView for Json {
    type V = JsonView;

    open spec fn deep_view(&self) -> JsonView {
        json_view(*self)
    }
}

/// An array holds what its items hold.
pub broadcast proof fn lemma_array_view(items: Vec<Json>)
    ensures
        #[trigger] json_view(Json::Array(items)) == JsonView::Array(items.deep_view()),
{
    assert(json_view(Json::Array(items))->Array_0 =~= items.deep_view());
}

/// An object holds its keys and what its members hold.
pub broadcast proof fn lemma_object_view(members: Vec<(String, Json)>)
    ensures
        #[trigger] json_view(Json::Object(members)) == JsonView::Object(members.deep_view()),
{
    assert(json_view(Json::Object(members))->Object_0 =~= members.deep_view());
}

/// The value that counts for `key` among `members`.
pub open spec fn lookup(members: Seq<(Seq<char>, JsonView)>, key: Seq<char>) -> Option<JsonView>
    decreases members.len(),
{
    if members.len() == 0 {
        None
    } else if members.last().0 == key {
        Some(members.last().1)
    } else {
        lookup(members.drop_last(), key)
    }
}

impl JsonView {
    /// The member `key` of an object.
    pub open spec fn get(self, key: Seq<char>) -> Option<JsonView> {
        match self {
            JsonView::Object(members) => lookup(members, key),
            _ => None,
        }
    }

    /// The text of a string.
    pub open spec fn as_str(self) -> Option<Seq<char>> {
        match self {
            JsonView::Str(s) => Some(s),
            _ => None,
        }
    }

    /// The items of an array.
    pub open spec fn as_array(self) -> Option<Seq<JsonView>> {
        match self {
            JsonView::Array(items) => Some(items),
            _ => None,
        }
    }

    /// The members of an object.
    pub open spec fn as_object(self) -> Option<Seq<(Seq<char>, JsonView)>> {
        match self {
            JsonView::Object(members) => Some(members),
            _ => None,
        }
    }

    /// The value of an integer from zero up.
    pub open spec fn as_u64(self) -> Option<u64> {
        match self {
            JsonView::Number(NumberView::Unsigned(n)) => Some(n),
            _ => None,
        }
    }

    /// The value of a boolean.
    pub open spec fn as_bool(self) -> Option<bool> {
        match self {
            JsonView::Bool(b) => Some(b),
            _ => None,
        }
    }

    /// The text of the member `key`, where it is a string.
    pub open spec fn text(self, key: Seq<char>) -> Option<Seq<char>> {
        match self.get(key) {
            Some(v) => v.as_str(),
            None => None,
        }
    }

    /// The items of the member `key`, where it is an array.
    pub open spec fn items(self, key: Seq<char>) -> Option<Seq<JsonView>> {
        match self.get(key) {
            Some(v) => v.as_array(),
            None => None,
        }
    }

    /// The members of the member `key`, where it is an object.
    pub open spec fn members(self, key: Seq<char>) -> Option<Seq<(Seq<char>, JsonView)>> {
        match self.get(key) {
            Some(v) => v.as_object(),
            None => None,
        }
    }
}

/// The value that counts for a key is the value of some member.
pub proof fn lemma_lookup_index(members: Seq<(Seq<char>, JsonView)>, key: Seq<char>) -> (i: int)
    requires
        lookup(members, key) is Some,
    ensures
        0 <= i < members.len(),
        members[i].0 == key,
        lookup(members, key) == Some(members[i].1),
    decreases members.len(),
{
    if members.last().0 == key {
        members.len() - 1
    } else {
        lemma_lookup_index(members.drop_last(), key)
    }
}

/// The value that counts for `key` among `members`: that of some member.
pub fn lookup_member<'a>(members: &'a Vec<(String, Json)>, key: &str) -> (r: Option<&'a Json>)
    ensures
        r.deep_view() == lookup(members.deep_view(), key@),
        r is Some ==> exists|i: int|
            0 <= i < members@.len() && (#[trigger] members@[i]).1 == *r->Some_0,
{
    let mut i: usize = members.len();
    assert(members.deep_view().take(i as int) =~= members.deep_view());
    while i > 0
        invariant
            i <= members.len(),
            lookup(members.deep_view(), key@) == lookup(
                members.deep_view().take(i as int),
                key@,
            ),
        decreases i,
    {
        let ghost front = members.deep_view().take(i as int);
        assert(front.drop_last() =~= members.deep_view().take(i - 1));
        i -= 1;
        if same(members[i].0.as_str(), key) {
            return Some(&members[i].1);
        }
    }
    None
}

impl Number {
    /// A number that holds the same.
    pub fn copy(&self) -> (r: Number)
        ensures
            r.deep_view() == self.deep_view(),
    {
        match self {
            Number::Unsigned(n) => Number::Unsigned(*n),
            Number::Negative(n) => Number::Negative(*n),
            Number::Float(t) => Number::Float(t.clone()),
        }
    }
}

impl Json {
    /// The string `s`.
    pub fn string(s: &str) -> (r: Json)
        ensures
            r.deep_view() == JsonView::Str(s@),
    {
        Json::Str(s.to_owned())
    }

    /// The member `key` of an object.
    pub fn get(&self, key: &str) -> (r: Option<&Json>)
        ensures
            r.deep_view() == self.deep_view().get(key@),
    {
        broadcast use {lemma_array_view, lemma_object_view};

        match self {
            Json::Object(members) => lookup_member(members, key),
            _ => None,
        }
    }

    /// The text of a string.
    pub fn as_str(&self) -> (r: Option<&str>)
        ensures
            r.deep_view() == self.deep_view().as_str(),
    {
        match self {
            Json::Str(s) => Some(s.as_str()),
            _ => None,
        }
    }

    /// The items of an array.
    pub fn as_array(&self) -> (r: Option<&Vec<Json>>)
        ensures
            r.deep_view() == self.deep_view().as_array(),
    {
        broadcast use {lemma_array_view, lemma_object_view};

        match self {
            Json::Array(items) => Some(items),
            _ => None,
        }
    }

    /// The members of an object.
    pub fn as_object(&self) -> (r: Option<&Vec<(String, Json)>>)
        ensures
            r.deep_view() == self.deep_view().as_object(),
    {
        broadcast use {lemma_array_view, lemma_object_view};

        match self {
            Json::Object(members) => Some(members),
            _ => None,
        }
    }

    /// The value of an integer from zero up.
    pub fn as_u64(&self) -> (r: Option<u64>)
        ensures
            r == self.deep_view().as_u64(),
    {
        match self {
            Json::Number(Number::Unsigned(n)) => Some(*n),
            _ => None,
        }
    }

    /// The value of a boolean.
    pub fn as_bool(&self) -> (r: Option<bool>)
        ensures
            r == self.deep_view().as_bool(),
    {
        match self {
            Json::Bool(b) => Some(*b),
            _ => None,
        }
    }

    /// The text of the member `key`, where it is a string.
    pub fn text(&self, key: &str) -> (r: Option<&str>)
        ensures
            r.deep_view() == self.deep_view().text(key@),
    {
        match self.get(key) {
            Some(v) => v.as_str(),
            None => None,
        }
    }

    /// The items of the member `key`, where it is an array.
    pub fn items(&self, key: &str) -> (r: Option<&Vec<Json>>)
        ensures
            r.deep_view() == self.deep_view().items(key@),
    {
        match self.get(key) {
            Some(v) => v.as_array(),
            None => None,
        }
    }

    /// The members of the member `key`, where it is an object.
    pub fn members(&self, key: &str) -> (r: Option<&Vec<(String, Json)>>)
        ensures
            r.deep_view() == self.deep_view().members(key@),
    {
        match self.get(key) {
            Some(v) => v.as_object(),
            None => None,
        }
    }

    /// A document that holds the same.
    pub fn copy(&self) -> (r: Json)
        ensures
            r.deep_view() == self.deep_view(),
        decreases self,
    {
        broadcast use {lemma_array_view, lemma_object_view};

        match self {
            Json::Null => Json::Null,
            Json::Bool(b) => Json::Bool(*b),
            Json::Number(n) => Json::Number(n.copy()),
            Json::Str(s) => Json::Str(s.clone()),
            Json::Array(items) => {
                let mut out: Vec<Json> = Vec::new();
                let mut i: usize = 0;
                while i < items.len()
                    invariant
                        i <= items.len(),
                        *self == Json::Array(*items),
                        out.deep_view() =~= items.deep_view().take(i as int),
                    decreases items.len() - i,
                {
                    let ghost done = out.deep_view();
                    assert(decreases_to!(*self => self->Array_0@[i as int]));
                    let item = items[i].copy();
                    let ghost v = item.deep_view();
                    out.push(item);
                    assert(out.deep_view() =~= done.push(v));
                    i += 1;
                }
                assert(out.deep_view() =~= items.deep_view());
                Json::Array(out)
            },
            Json::Object(members) => {
                let mut out: Vec<(String, Json)> = Vec::new();
                let mut i: usize = 0;
                while i < members.len()
                    invariant
                        i <= members.len(),
                        *self == Json::Object(*members),
                        out.deep_view() =~= members.deep_view().take(i as int),
                    decreases members.len() - i,
                {
                    let ghost done = out.deep_view();
                    assert(decreases_to!(*self => self->Object_0@[i as int].1));
                    let value = members[i].1.copy();
                    let pair = (members[i].0.clone(), value);
                    let ghost v = pair.deep_view();
                    out.push(pair);
                    assert(out.deep_view() =~= done.push(v));
                    i += 1;
                }
                assert(out.deep_view() =~= members.deep_view());
                Json::Object(out)
            },
        }
    }
}

impl Clone for Number {
    fn clone(&self) -> (r: Number)
        ensures
            r.deep_view() == self.deep_view(),
    {
        self.copy()
    }
}

impl Clone for Json {
    fn clone(&self) -> (r: Json)
        ensures
            r.deep_view() == self.deep_view(),
    {
        self.copy()
    }
}

/// `members` with `value` for `key`: in the place of the member that has the key,
/// else behind all others.
pub open spec fn with_member(
    members: Seq<(Seq<char>, JsonView)>,
    key: Seq<char>,
    value: JsonView,
) -> Seq<(Seq<char>, JsonView)>
    decreases members.len(),
{
    if members.len() == 0 {
        seq![(key, value)]
    } else if members.last().0 == key {
        members.drop_last().push((key, value))
    } else if lookup(members.drop_last(), key) is None {
        members.push((key, value))
    } else {
        with_member(members.drop_last(), key, value).push(members.last())
    }
}

/// Setting a member gives the new value for its key and leaves every other key as it was.
pub proof fn lemma_with_member(
    members: Seq<(Seq<char>, JsonView)>,
    key: Seq<char>,
    value: JsonView,
    other: Seq<char>,
)
    ensures
        lookup(with_member(members, key, value), other) == (if other == key {
            Some(value)
        } else {
            lookup(members, other)
        }),
    decreases members.len(),
{
    let r = with_member(members, key, value);
    if members.len() == 0 {
        assert(r.last() == (key, value));
        assert(r.drop_last() =~= members);
    } else if members.last().0 == key {
        assert(r.last() == (key, value));
        assert(r.drop_last() =~= members.drop_last());
    } else if lookup(members.drop_last(), key) is None {
        assert(r.last() == (key, value));
        assert(r.drop_last() =~= members);
    } else {
        assert(r.last() == members.last());
        assert(r.drop_last() =~= with_member(members.drop_last(), key, value));
        lemma_with_member(members.drop_last(), key, value, other);
    }
}

/// The keys of members, in order.
pub open spec fn keys_of(members: Seq<(Seq<char>, JsonView)>) -> Seq<Seq<char>> {
    members.map_values(|m: (Seq<char>, JsonView)| m.0)
}

/// Setting a member keeps the keys as they are, or adds its key at the end.
pub proof fn lemma_with_member_keys(
    members: Seq<(Seq<char>, JsonView)>,
    key: Seq<char>,
    value: JsonView,
)
    ensures
        keys_of(with_member(members, key, value)) == (if lookup(members, key) is Some {
            keys_of(members)
        } else {
            keys_of(members).push(key)
        }),
    decreases members.len(),
{
    let r = with_member(members, key, value);
    if lookup(members, key) is None {
        lemma_absent_member(members, key, value);
        assert(keys_of(r) =~= keys_of(members).push(key));
    } else if members.last().0 == key {
        assert(keys_of(r) =~= keys_of(members));
    } else {
        lemma_with_member_keys(members.drop_last(), key, value);
        let front = with_member(members.drop_last(), key, value);
        assert(front.len() == members.drop_last().len()) by {
            assert(keys_of(front).len() == keys_of(members.drop_last()).len());
        }
        assert forall|i: int| 0 <= i < r.len() implies keys_of(r)[i] == keys_of(members)[i] by {
            if i < front.len() {
                assert(keys_of(front)[i] == keys_of(members.drop_last())[i]);
            }
        }
        assert(keys_of(r) =~= keys_of(members));
    }
}

/// Setting a member leaves distinct keys distinct.
pub proof fn lemma_with_member_distinct(
    members: Seq<(Seq<char>, JsonView)>,
    key: Seq<char>,
    value: JsonView,
)
    requires
        distinct_members(members),
    ensures
        distinct_members(with_member(members, key, value)),
{
    let r = with_member(members, key, value);
    lemma_with_member_keys(members, key, value);
    assert forall|i: int, j: int| 0 <= i < j < r.len() implies #[trigger] r[i].0
        != #[trigger] r[j].0 by {
        assert(keys_of(r)[i] == r[i].0);
        assert(keys_of(r)[j] == r[j].0);
        assert(keys_of(r).len() == r.len());
        if j < members.len() {
            assert(keys_of(members)[i] == members[i].0);
            assert(keys_of(members)[j] == members[j].0);
            assert(members[i].0 != members[j].0);
        } else {
            assert(lookup(members, key) is None);
            if members[i].0 == key {
                lemma_present(members, i);
            }
        }
    }
}

/// A key that a member has is to be found.
pub proof fn lemma_present(members: Seq<(Seq<char>, JsonView)>, i: int)
    requires
        0 <= i < members.len(),
    ensures
        lookup(members, members[i].0) is Some,
    decreases members.len(),
{
    if i < members.len() - 1 {
        lemma_present(members.drop_last(), i);
    }
}

/// Among distinct members each is the one that counts for its key.
pub proof fn lemma_distinct_lookup(members: Seq<(Seq<char>, JsonView)>, i: int)
    requires
        distinct_members(members),
        0 <= i < members.len(),
    ensures
        lookup(members, members[i].0) == Some(members[i].1),
{
    lemma_present(members, i);
    let k = lemma_lookup_index(members, members[i].0);
    if k < i {
        assert(members[k].0 != members[i].0);
    } else if i < k {
        assert(members[i].0 != members[k].0);
    }
}

/// Setting a member leaves the members of other keys in their places.
pub proof fn lemma_with_member_others(
    members: Seq<(Seq<char>, JsonView)>,
    key: Seq<char>,
    value: JsonView,
    i: int,
)
    requires
        0 <= i < members.len(),
        members[i].0 != key,
    ensures
        with_member(members, key, value).len() >= members.len(),
        with_member(members, key, value)[i] == members[i],
    decreases members.len(),
{
    if members.last().0 != key && lookup(members.drop_last(), key) is Some {
        lemma_with_member_keys(members.drop_last(), key, value);
        assert(keys_of(with_member(members.drop_last(), key, value)).len() == keys_of(
            members.drop_last(),
        ).len());
        if i < members.len() - 1 {
            lemma_with_member_others(members.drop_last(), key, value, i);
        }
    }
}

/// Where no member has the key, `with_member` adds one at the end.
proof fn lemma_absent_member(
    members: Seq<(Seq<char>, JsonView)>,
    key: Seq<char>,
    value: JsonView,
)
    requires
        lookup(members, key) is None,
    ensures
        with_member(members, key, value) == members.push((key, value)),
{
    if members.len() == 0 {
        assert(members.push((key, value)) =~= seq![(key, value)]);
    }
}

/// Sets the member `key` to `value`, in its place where there is one.
pub fn set_member(members: &mut Vec<(String, Json)>, key: &str, value: Json)
    ensures
        final(members).deep_view() == with_member(
            old(members).deep_view(),
            key@,
            value.deep_view(),
        ),
{
    let ghost all = members.deep_view();
    let ghost v = value.deep_view();
    let mut i: usize = members.len();
    assert(all.take(i as int) =~= all);
    assert(all.skip(i as int) =~= Seq::<(Seq<char>, JsonView)>::empty());
    while i > 0 && !same(members[i - 1].0.as_str(), key)
        invariant
            i <= members.len(),
            all == members.deep_view(),
            lookup(all, key@) == lookup(all.take(i as int), key@),
            lookup(all.take(i as int), key@) is Some ==> with_member(all, key@, v) =~= with_member(
                all.take(i as int),
                key@,
                v,
            ) + all.skip(i as int),
        decreases i,
    {
        proof {
            let front = all.take(i as int);
            assert(front.drop_last() =~= all.take(i - 1));
            if lookup(all.take(i - 1), key@) is Some {
                assert(with_member(front, key@, v) + all.skip(i as int) =~= with_member(
                    all.take(i - 1),
                    key@,
                    v,
                ) + all.skip(i - 1));
            }
        }
        i -= 1;
    }
    if i == 0 {
        proof {
            lemma_absent_member(all, key@, v);
        }
        members.push((key.to_owned(), value));
        assert(members.deep_view() =~= all.push((key@, v)));
    } else {
        proof {
            let front = all.take(i as int);
            assert(front.drop_last() =~= all.take(i - 1));
        }
        members[i - 1].1 = value;
        assert(members.deep_view() =~= all.take(i - 1).push((key@, v)) + all.skip(i as int));
    }
}

/// The texts among `items`.
pub open spec fn texts_of(items: Seq<JsonView>) -> Seq<Seq<char>> {
    items.filter_map(|v: JsonView| v.as_str())
}

/// The texts among `items`.
pub fn texts(items: &Vec<Json>) -> (r: Vec<String>)
    ensures
        r.deep_view() == texts_of(items.deep_view()),
{
    let ghost f = |v: JsonView| v.as_str();
    let ghost all = items.deep_view();
    let mut out: Vec<String> = Vec::new();
    let mut i: usize = 0;
    assert(out.deep_view() =~= all.take(0).filter_map(f)) by {
        reveal(Seq::filter_map);
    }
    while i < items.len()
        invariant
            i <= items.len(),
            all == items.deep_view(),
            f == (|v: JsonView| v.as_str()),
            out.deep_view() == all.take(i as int).filter_map(f),
        decreases items.len() - i,
    {
        let ghost done = out.deep_view();
        proof {
            all.lemma_filter_map_take_succ(f, i as int);
        }
        if let Some(s) = items[i].as_str() {
            out.push(s.to_owned());
            assert(out.deep_view() =~= done + seq![s@]);
        }
        i += 1;
    }
    assert(all.take(all.len() as int) =~= all);
    out
}

/// Of members behind others the last one with a key counts, wherever it stands.
pub proof fn lemma_lookup_concat(
    a: Seq<(Seq<char>, JsonView)>,
    b: Seq<(Seq<char>, JsonView)>,
    key: Seq<char>,
)
    ensures
        lookup(a + b, key) == (match lookup(b, key) {
            Some(v) => Some(v),
            None => lookup(a, key),
        }),
    decreases b.len(),
{
    if b.len() == 0 {
        assert(a + b =~= a);
    } else {
        lemma_lookup_concat(a, b.drop_last(), key);
        assert((a + b).drop_last() =~= a + b.drop_last());
    }
}

/// The members of `members` whose value is a text, each with it.
pub open spec fn text_members_of(
    members: Seq<(Seq<char>, JsonView)>,
) -> Seq<(Seq<char>, Seq<char>)> {
    members.filter_map(text_member())
}

/// A member with its text, where its value is one.
pub open spec fn text_member() -> spec_fn((Seq<char>, JsonView)) -> Option<(Seq<char>, Seq<char>)> {
    |m: (Seq<char>, JsonView)|
        match m.1 {
            JsonView::Str(s) => Some((m.0, s)),
            _ => None,
        }
}

/// The members of `members` whose value is a text, each with it.
pub fn text_members(members: &Vec<(String, Json)>) -> (r: Vec<(String, String)>)
    ensures
        r.deep_view() == text_members_of(members.deep_view()),
{
    let ghost all = members.deep_view();
    let mut out: Vec<(String, String)> = Vec::new();
    let mut i: usize = 0;
    assert(out.deep_view() =~= all.take(0).filter_map(text_member())) by {
        reveal(Seq::filter_map);
    }
    while i < members.len()
        invariant
            i <= members.len(),
            all == members.deep_view(),
            out.deep_view() == all.take(i as int).filter_map(text_member()),
        decreases members.len() - i,
    {
        let ghost done = out.deep_view();
        proof {
            all.lemma_filter_map_take_succ(text_member(), i as int);
            assert(all[i as int] == (members@[i as int].0@, members@[i as int].1.deep_view()));
        }
        if let Some(s) = members[i].1.as_str() {
            out.push((members[i].0.clone(), s.to_owned()));
            assert(out.deep_view() =~= done + seq![(members@[i as int].0@, s@)]);
        }
        i += 1;
    }
    assert(all.take(all.len() as int) =~= all);
    out
}

/// `serde_json::Value`, a JSON document as that crate holds it.
#[verifier::external_type_specification]
#[verifier::external_body]
pub struct ExValue(serde_json::Value);

/// What a document of `serde_json` holds.
pub uninterp spec fn json_content(value: Value) -> JsonView;

/// What `serde_json::from_str` makes of a text: the document that it reads, or the
/// message of its error.
pub uninterp spec fn json_reading(text: Seq<char>) -> Result<JsonView, Seq<char>>;

/// What `serde_json::from_slice` makes of bytes: the document that it reads, or the
/// message of its error.
pub uninterp spec fn json_reading_of_bytes(bytes: Seq<u8>) -> Result<JsonView, Seq<char>>;

/// The notation in which `serde_json` prints the number that `text` stands for, once
/// `serde_json::Number::from_f64` has taken it; nothing for what is no finite number.
pub uninterp spec fn float_notation(text: Seq<char>) -> Option<Seq<char>>;

/// What `serde_json::to_string_pretty` prints for a document.
pub uninterp spec fn pretty_text(json: JsonView) -> Seq<char>;

/// What `serde_json::to_string` prints for a document.
pub uninterp spec fn compact_text(json: JsonView) -> Seq<char>;

/// Whether `serde_json::from_str` reads `text` as `json`.
pub open spec fn reads_as(text: Seq<char>, json: JsonView) -> bool {
    json_reading(text) == Ok::<JsonView, Seq<char>>(json)
}

/// Whether no two members of `members` have the same key.
pub open spec fn distinct_members(members: Seq<(Seq<char>, JsonView)>) -> bool {
    forall|i: int, j: int|
        0 <= i < j < members.len() ==> #[trigger] members[i].0 != #[trigger] members[j].0
}

/// Whether no object in `json` has two members with the same key.
pub open spec fn distinct_keys(json: JsonView) -> bool
    decreases json,
{
    match json {
        JsonView::Array(items) => forall|i: int|
            0 <= i < items.len() ==> distinct_keys(#[trigger] items[i]),
        JsonView::Object(members) => distinct_members(members) && forall|i: int|
            0 <= i < members.len() ==> distinct_keys((#[trigger] members[i]).1),
        _ => true,
    }
}

/// Whether `json` holds no number but integers and nests arrays and objects at most
/// `levels` deep. `serde_json` reads back what it prints for such a document, up to
/// one hundred and twenty-seven levels.
pub open spec fn prints_back(json: JsonView, levels: nat) -> bool
    decreases json,
{
    match json {
        JsonView::Number(NumberView::Float(_)) => false,
        JsonView::Array(items) => levels > 0 && forall|i: int|
            0 <= i < items.len() ==> prints_back(#[trigger] items[i], (levels - 1) as nat),
        JsonView::Object(members) => levels > 0 && forall|i: int|
            0 <= i < members.len() ==> prints_back((#[trigger] members[i]).1, (levels - 1) as nat),
        _ => true,
    }
}

/// The members that remain when each key keeps its first place and its last value.
pub open spec fn merged(members: Seq<(Seq<char>, JsonView)>) -> Seq<(Seq<char>, JsonView)>
    decreases members.len(),
{
    if members.len() == 0 {
        members
    } else {
        with_member(merged(members.drop_last()), members.last().0, members.last().1)
    }
}

/// The document that `serde_json` holds for `json`: the members of an object merged by
/// key, an integer by its sign, any other number in the printer's notation, and what is
/// no number as null.
pub open spec fn normal(json: JsonView) -> JsonView
    decreases json,
{
    match json {
        JsonView::Number(NumberView::Negative(n)) => if n >= 0 {
            JsonView::Number(NumberView::Unsigned(n as u64))
        } else {
            json
        },
        JsonView::Number(NumberView::Float(t)) => match float_notation(t) {
            Some(notation) => JsonView::Number(NumberView::Float(notation)),
            None => JsonView::Null,
        },
        JsonView::Array(items) => JsonView::Array(
            Seq::new(
                items.len(),
                |i: int|
                    if 0 <= i < items.len() {
                        normal(items[i])
                    } else {
                        JsonView::Null
                    },
            ),
        ),
        JsonView::Object(members) => JsonView::Object(merged(normal_members(members))),
        _ => json,
    }
}

/// The members with what `serde_json` holds for the value of each.
pub open spec fn normal_members(members: Seq<(Seq<char>, JsonView)>) -> Seq<(Seq<char>, JsonView)>
    decreases members,
{
    Seq::new(
        members.len(),
        |i: int|
            if 0 <= i < members.len() {
                (members[i].0, normal(members[i].1))
            } else {
                (Seq::empty(), JsonView::Null)
            },
    )
}

/// Calls `serde_json::from_str`: the document that `text` holds, or the message of the
/// error. It depends on the text alone, and no object that it reads has a key twice.
#[verifier::external_body]
fn read_text(text: &str) -> (r: Result<Value, String>)
    ensures
        match r {
            Ok(value) => json_reading(text@) == Ok::<JsonView, Seq<char>>(json_content(value))
                && distinct_keys(json_content(value)),
            Err(message) => json_reading(text@) == Err::<JsonView, Seq<char>>(message@),
        },
{
    serde_json::from_str(text).map_err(|e| e.to_string())
}

/// Calls `serde_json::from_slice`: the document that `bytes` hold, or the message of the
/// error. It depends on the bytes alone, and no object that it reads has a key twice.
#[verifier::external_body]
fn read_bytes(bytes: &[u8]) -> (r: Result<Value, String>)
    ensures
        match r {
            Ok(value) => json_reading_of_bytes(bytes@) == Ok::<JsonView, Seq<char>>(
                json_content(value),
            ) && distinct_keys(json_content(value)),
            Err(message) => json_reading_of_bytes(bytes@) == Err::<JsonView, Seq<char>>(message@),
        },
{
    serde_json::from_slice(bytes).map_err(|e| e.to_string())
}

/// Takes a `serde_json::Value` apart: the plain document that holds what it holds.
#[verifier::external_body]
fn json_of(value: &Value) -> (r: Json)
    ensures
        r.deep_view() == json_content(*value),
{
    match value {
        Value::Null => Json::Null,
        Value::Bool(b) => Json::Bool(*b),
        Value::Number(n) => Json::Number(match (n.as_u64(), n.as_i64()) {
            (Some(u), _) => Number::Unsigned(u),
            (None, Some(i)) => Number::Negative(i),
            (None, None) => Number::Float(n.to_string()),
        }),
        Value::String(s) => Json::Str(s.clone()),
        Value::Array(a) => Json::Array(a.iter().map(json_of).collect()),
        Value::Object(o) => {
            Json::Object(o.iter().map(|(k, v)| (k.clone(), json_of(v))).collect())
        },
    }
}

/// Makes the `serde_json::Value` of an integer from zero up, by `Value::from`.
#[verifier::external_body]
fn value_of_unsigned(n: u64) -> (r: Value)
    ensures
        json_content(r) == JsonView::Number(NumberView::Unsigned(n)),
{
    Value::from(n)
}

/// Makes the `serde_json::Value` of a signed integer, by `Value::from`, which tells
/// integers apart by their sign.
#[verifier::external_body]
fn value_of_signed(n: i64) -> (r: Value)
    ensures
        json_content(r) == (if n >= 0 {
            JsonView::Number(NumberView::Unsigned(n as u64))
        } else {
            JsonView::Number(NumberView::Negative(n))
        }),
{
    Value::from(n)
}

/// Makes the `serde_json::Value` of the number that `text` stands for, by
/// `serde_json::Number::from_f64`; null where there is no such finite number.
#[verifier::external_body]
fn value_of_float(text: &str) -> (r: Value)
    ensures
        json_content(r) == (match float_notation(text@) {
            Some(notation) => JsonView::Number(NumberView::Float(notation)),
            None => JsonView::Null,
        }),
{
    Value::from(text.parse().ok().and_then(serde_json::Number::from_f64))
}

/// The `serde_json::Value` that holds a number.
pub(crate) fn value_of_number(number: &Number) -> (r: Value)
    ensures
        json_content(r) == normal(JsonView::Number(number.deep_view())),
{
    match number {
        Number::Unsigned(n) => value_of_unsigned(*n),
        Number::Negative(n) => value_of_signed(*n),
        Number::Float(t) => value_of_float(t.as_str()),
    }
}

/// Makes the `serde_json::Value` that is null.
#[verifier::external_body]
fn value_of_null() -> (r: Value)
    ensures
        json_content(r) == JsonView::Null,
{
    Value::Null
}

/// Makes the `serde_json::Value` of a truth value.
#[verifier::external_body]
fn value_of_bool(b: bool) -> (r: Value)
    ensures
        json_content(r) == JsonView::Bool(b),
{
    Value::Bool(b)
}

/// Makes the `serde_json::Value` of a text.
#[verifier::external_body]
fn value_of_text(s: &str) -> (r: Value)
    ensures
        json_content(r) == JsonView::Str(s@),
{
    Value::String(s.to_owned())
}

/// What the items of an array of `serde_json` hold.
pub open spec fn item_contents(items: Seq<Value>) -> Seq<JsonView> {
    Seq::new(items.len(), |i: int| json_content(items[i]))
}

/// Makes the `serde_json::Value` of an array.
#[verifier::external_body]
fn value_of_items(items: Vec<Value>) -> (r: Value)
    ensures
        json_content(r) == JsonView::Array(item_contents(items@)),
{
    Value::Array(items)
}

/// What members for an object of `serde_json` hold.
pub open spec fn member_contents(members: Seq<(String, Value)>) -> Seq<
    (Seq<char>, JsonView),
> {
    Seq::new(members.len(), |i: int| (members[i].0@, json_content(members[i].1)))
}

/// Makes the `serde_json::Value` of an object: a `serde_json::Map` keeps the members in order,
/// and a key that comes again keeps its place and takes the new value.
#[verifier::external_body]
fn value_of_members(members: Vec<(String, Value)>) -> (r: Value)
    ensures
        json_content(r) == JsonView::Object(merged(member_contents(members@))),
{
    Value::Object(members.into_iter().collect())
}

/// The `serde_json::Value` that holds the document.
fn value_of(json: &Json) -> (r: Value)
    ensures
        json_content(r) == normal(json.deep_view()),
    decreases json,
{
    broadcast use {lemma_array_view, lemma_object_view};

    match json {
        Json::Null => value_of_null(),
        Json::Bool(b) => value_of_bool(*b),
        Json::Number(n) => value_of_number(n),
        Json::Str(s) => value_of_text(s.as_str()),
        Json::Array(items) => {
            let ghost all = items.deep_view();
            let mut out: Vec<Value> = Vec::new();
            let mut i: usize = 0;
            while i < items.len()
                invariant
                    i <= items@.len(),
                    all == items.deep_view(),
                    *json == Json::Array(*items),
                    out@.len() == i,
                    forall|j: int|
                        0 <= j < i ==> json_content(#[trigger] out@[j]) == normal(all[j]),
                decreases items@.len() - i,
            {
                assert(decreases_to!(*json => json->Array_0@[i as int]));
                assert(all[i as int] == items@[i as int].deep_view());
                out.push(value_of(&items[i]));
                i += 1;
            }
            assert(item_contents(out@) =~= normal(JsonView::Array(all))->Array_0);
            value_of_items(out)
        },
        Json::Object(members) => {
            let ghost all = members.deep_view();
            let mut out: Vec<(String, Value)> = Vec::new();
            let mut i: usize = 0;
            while i < members.len()
                invariant
                    i <= members@.len(),
                    all == members.deep_view(),
                    *json == Json::Object(*members),
                    out@.len() == i,
                    forall|j: int|
                        0 <= j < i ==> (#[trigger] out@[j]).0@ == all[j].0 && json_content(
                            out@[j].1,
                        ) == normal(all[j].1),
                decreases members@.len() - i,
            {
                assert(decreases_to!(*json => json->Object_0@[i as int].1));
                assert(all[i as int] == (
                    members@[i as int].0@,
                    members@[i as int].1.deep_view(),
                ));
                out.push((members[i].0.clone(), value_of(&members[i].1)));
                i += 1;
            }
            assert(member_contents(out@) =~= normal_members(all));
            value_of_members(out)
        },
    }
}

/// Calls `serde_json::to_string_pretty`. The text depends on the document alone, and
/// `serde_json::from_str` reads it back, with a line break behind it too, where the document
/// holds no number but integers and does not nest too deep.
#[verifier::external_body]
fn print_pretty(value: &Value) -> (r: String)
    ensures
        r@ == pretty_text(json_content(*value)),
        prints_back(json_content(*value), 127) ==> reads_as(r@, json_content(*value)) && reads_as(
            r@ + "\n"@,
            json_content(*value),
        ),
{
    serde_json::to_string_pretty(value).expect("a JSON value always prints")
}

/// Calls `serde_json::to_string`. The text depends on the document alone, and
/// `serde_json::from_str` reads it back where the document holds no number but integers
/// and does not nest too deep.
#[verifier::external_body]
fn print_compact(value: &Value) -> (r: String)
    ensures
        r@ == compact_text(json_content(*value)),
        prints_back(json_content(*value), 127) ==> reads_as(r@, json_content(*value)),
{
    serde_json::to_string(value).expect("a JSON value always prints")
}

impl Json {
    /// The document that `text` holds, or the reader's message.
    pub fn parse(text: &str) -> (r: Result<Json, String>)
        ensures
            match r {
                Ok(json) => json_reading(text@) == Ok::<JsonView, Seq<char>>(json.deep_view())
                    && distinct_keys(json.deep_view()),
                Err(message) => json_reading(text@) == Err::<JsonView, Seq<char>>(message@),
            },
    {
        match read_text(text) {
            Ok(value) => Ok(json_of(&value)),
            Err(message) => Err(message),
        }
    }

    /// The document that `bytes` hold, or the reader's message.
    pub fn parse_bytes(bytes: &[u8]) -> (r: Result<Json, String>)
        ensures
            match r {
                Ok(json) => json_reading_of_bytes(bytes@) == Ok::<JsonView, Seq<char>>(
                    json.deep_view(),
                ) && distinct_keys(json.deep_view()),
                Err(message) => json_reading_of_bytes(bytes@) == Err::<JsonView, Seq<char>>(
                    message@,
                ),
            },
    {
        match read_bytes(bytes) {
            Ok(value) => Ok(json_of(&value)),
            Err(message) => Err(message),
        }
    }

    /// The document over several lines, indented.
    pub fn to_pretty(&self) -> (r: String)
        ensures
            r@ == pretty_text(normal(self.deep_view())),
            prints_back(normal(self.deep_view()), 127) ==> reads_as(r@, normal(self.deep_view()))
                && reads_as(r@ + "\n"@, normal(self.deep_view())),
    {
        print_pretty(&value_of(self))
    }

    /// The document on one line.
    pub fn to_compact(&self) -> (r: String)
        ensures
            r@ == compact_text(normal(self.deep_view())),
            prints_back(normal(self.deep_view()), 127) ==> reads_as(r@, normal(self.deep_view())),
    {
        print_compact(&value_of(self))
    }
}

/// Whether `json` is what `serde_json` would hold for it: no key twice, no number but
/// integers, each by its sign.
pub open spec fn is_plain(json: JsonView) -> bool
    decreases json,
{
    match json {
        JsonView::Number(NumberView::Float(_)) => false,
        JsonView::Number(NumberView::Negative(n)) => n < 0,
        JsonView::Array(items) => forall|i: int|
            0 <= i < items.len() ==> is_plain(#[trigger] items[i]),
        JsonView::Object(members) => distinct_members(members) && forall|i: int|
            0 <= i < members.len() ==> is_plain((#[trigger] members[i]).1),
        _ => true,
    }
}

/// Among distinct members the key of a new one is not to be found.
pub proof fn lemma_distinct_absent(members: Seq<(Seq<char>, JsonView)>, key: Seq<char>)
    requires
        forall|i: int| 0 <= i < members.len() ==> #[trigger] members[i].0 != key,
    ensures
        lookup(members, key) is None,
    decreases members.len(),
{
    if members.len() > 0 {
        assert(members.last().0 != key);
        assert forall|i: int| 0 <= i < members.drop_last().len() implies #[trigger] members.drop_last()[i].0
            != key by {
            assert(members[i].0 != key);
        }
        lemma_distinct_absent(members.drop_last(), key);
    }
}

/// Distinct members stay as they are when they are merged.
pub proof fn lemma_merged_distinct(members: Seq<(Seq<char>, JsonView)>)
    requires
        distinct_members(members),
    ensures
        merged(members) == members,
    decreases members.len(),
{
    if members.len() > 0 {
        let front = members.drop_last();
        assert(distinct_members(front)) by {
            assert forall|i: int, j: int| 0 <= i < j < front.len() implies #[trigger] front[i].0
                != #[trigger] front[j].0 by {
                assert(members[i].0 != members[j].0);
            }
        }
        lemma_merged_distinct(front);
        let last = members.last();
        assert forall|i: int| 0 <= i < front.len() implies #[trigger] front[i].0 != last.0 by {
            assert(members[i].0 != members[members.len() - 1].0);
        }
        lemma_distinct_absent(front, last.0);
        lemma_absent_member(front, last.0, last.1);
        assert(front.push((last.0, last.1)) =~= members);
    }
}

/// A plain document is held as it is.
pub proof fn lemma_plain_is_normal(json: JsonView)
    requires
        is_plain(json),
    ensures
        normal(json) == json,
    decreases json,
{
    match json {
        JsonView::Array(items) => {
            let r = normal(json)->Array_0;
            assert forall|i: int| 0 <= i < items.len() implies r[i] == items[i] by {
                assert(is_plain(items[i]));
                assert(decreases_to!(json => json->Array_0[i]));
                lemma_plain_is_normal(items[i]);
            }
            assert(r =~= items);
        },
        JsonView::Object(members) => {
            let r = normal_members(members);
            assert forall|i: int| 0 <= i < members.len() implies r[i] == members[i] by {
                assert(is_plain(members[i].1));
                assert(decreases_to!(json => json->Object_0[i].1));
                lemma_plain_is_normal(members[i].1);
            }
            assert(r =~= members);
            lemma_merged_distinct(members);
        },
        _ => {},
    }
}

/// Whether `json` is plain and reads back from its print, `levels` deep at most.
pub open spec fn is_tidy(json: JsonView, levels: nat) -> bool {
    is_plain(json) && prints_back(json, levels)
}

/// An object is tidy where its keys differ and its values are tidy.
pub proof fn lemma_tidy_object(members: Seq<(Seq<char>, JsonView)>, levels: nat)
    requires
        levels > 0,
        distinct_members(members),
        forall|i: int|
            0 <= i < members.len() ==> is_tidy((#[trigger] members[i]).1, (levels - 1) as nat),
    ensures
        is_tidy(JsonView::Object(members), levels),
{
}

/// An array is tidy where its items are tidy.
pub proof fn lemma_tidy_array(items: Seq<JsonView>, levels: nat)
    requires
        levels > 0,
        forall|i: int| 0 <= i < items.len() ==> is_tidy(#[trigger] items[i], (levels - 1) as nat),
    ensures
        is_tidy(JsonView::Array(items), levels),
{
}

/// Adds the member `key` behind all others.
pub fn put(members: &mut Vec<(String, Json)>, key: &str, value: Json)
    ensures
        final(members).deep_view() == old(members).deep_view().push((key@, value.deep_view())),
{
    let ghost before = members.deep_view();
    let ghost v = value.deep_view();
    members.push((key.to_owned(), value));
    assert(members.deep_view() =~= before.push((key@, v)));
}

/// Adds an item behind all others.
pub fn add_item(items: &mut Vec<Json>, value: Json)
    ensures
        final(items).deep_view() == old(items).deep_view().push(value.deep_view()),
{
    let ghost before = items.deep_view();
    let ghost v = value.deep_view();
    items.push(value);
    assert(items.deep_view() =~= before.push(v));
}

/// No members yet.
pub fn no_members() -> (r: Vec<(String, Json)>)
    ensures
        r.deep_view() == Seq::<(Seq<char>, JsonView)>::empty(),
{
    let r: Vec<(String, Json)> = Vec::new();
    assert(r.deep_view() =~= Seq::<(Seq<char>, JsonView)>::empty());
    r
}

/// No items yet.
pub fn no_items() -> (r: Vec<Json>)
    ensures
        r.deep_view() == Seq::<JsonView>::empty(),
{
    let r: Vec<Json> = Vec::new();
    assert(r.deep_view() =~= Seq::<JsonView>::empty());
    r
}

/// The object with these members.
pub fn object(members: Vec<(String, Json)>) -> (r: Json)
    ensures
        r.deep_view() == JsonView::Object(members.deep_view()),
{
    broadcast use {lemma_array_view, lemma_object_view};

    Json::Object(members)
}

/// The array with these items.
pub fn array(items: Vec<Json>) -> (r: Json)
    ensures
        r.deep_view() == JsonView::Array(items.deep_view()),
{
    broadcast use {lemma_array_view, lemma_object_view};

    Json::Array(items)
}

/// The array with one item.
pub fn array_of(item: Json) -> (r: Json)
    ensures
        r.deep_view() == JsonView::Array(seq![item.deep_view()]),
{
    let mut items = no_items();
    let ghost v = item.deep_view();
    add_item(&mut items, item);
    assert(items.deep_view() =~= seq![v]);
    array(items)
}

/// The object with one member.
pub fn object_of(key: &str, value: Json) -> (r: Json)
    ensures
        r.deep_view() == JsonView::Object(seq![(key@, value.deep_view())]),
{
    let mut members = no_members();
    let ghost v = value.deep_view();
    put(&mut members, key, value);
    assert(members.deep_view() =~= seq![(key@, v)]);
    object(members)
}

/// A member that is there where its value is.
pub open spec fn optional_member(key: Seq<char>, value: Option<JsonView>) -> Seq<
    (Seq<char>, JsonView),
> {
    match value {
        Some(v) => seq![(key, v)],
        None => Seq::empty(),
    }
}

/// Adds the member `key` behind all others, where its value is there.
pub fn put_some(members: &mut Vec<(String, Json)>, key: &str, value: Option<Json>)
    ensures
        final(members).deep_view() == old(members).deep_view() + optional_member(
            key@,
            value.deep_view(),
        ),
{
    let ghost before = members.deep_view();
    match value {
        Some(v) => {
            let ghost w = v.deep_view();
            put(members, key, v);
            assert(before.push((key@, w)) =~= before + seq![(key@, w)]);
        },
        None => {
            assert(before =~= before + Seq::<(Seq<char>, JsonView)>::empty());
        },
    }
}

/// A text as JSON, where there is one.
pub open spec fn text_json(s: Option<Seq<char>>) -> Option<JsonView> {
    match s {
        Some(t) => Some(JsonView::Str(t)),
        None => None,
    }
}

/// A text as JSON, where there is one.
pub fn string_opt(s: &Option<String>) -> (r: Option<Json>)
    ensures
        r.deep_view() == text_json(s.deep_view()),
{
    match s {
        Some(t) => Some(Json::string(t.as_str())),
        None => None,
    }
}

} // verus!
