//! Advisories, in one shape for all sources, and the same vulnerability from several of them
//! made one.

use super::cvss::{Score, ScoreView};
use super::Severity;
use crate::text::{
    any_is, ascii_upper, copy_opt, copy_texts, same, starts_with, trim, trimmed, uppered,
};
use vstd::prelude::*;
use vstd::string::*;

verus! {

/// One advisory.
#[derive(Debug, Clone)]
pub struct Advisory {
    /// The name of the source.
    pub source: &'static str,
    /// The id that the source gives, a `GHSA-…` where there is one.
    pub id: String,
    /// Other ids of the same vulnerability (`GHSA-…`, `CVE-…`).
    pub aliases: Vec<String>,
    /// The package that is concerned.
    pub package: String,
    /// The range of the versions that are affected.
    pub vulnerable_range: String,
    /// The severity, where the source gives one.
    pub severity: Option<Severity>,
    /// A short title.
    pub title: String,
    /// Where to read more.
    pub url: Option<String>,
    /// The weaknesses (`CWE-79`, …).
    pub cwe: Vec<String>,
    /// The CVSS base score, where the source gives one.
    pub cvss_score: Option<Score>,
    /// The CVSS vector, where the source gives one.
    pub cvss_vector: Option<String>,
    /// The installed version that is affected; empty as long as none is known.
    pub matched_version: String,
}

/// What an [`Advisory`] holds.
#[verifier::ext_equal]
pub struct AdvisoryView {
    pub source: Seq<char>,
    pub id: Seq<char>,
    pub aliases: Seq<Seq<char>>,
    pub package: Seq<char>,
    pub vulnerable_range: Seq<char>,
    pub severity: Option<Severity>,
    pub title: Seq<char>,
    pub url: Option<Seq<char>>,
    pub cwe: Seq<Seq<char>>,
    pub cvss_score: Option<ScoreView>,
    pub cvss_vector: Option<Seq<char>>,
    pub matched_version: Seq<char>,
}

impl DeepView for Advisory {
    type V = AdvisoryView;

    open spec fn deep_view(&self) -> AdvisoryView {
        AdvisoryView {
            source: self.source@,
            id: self.id@,
            aliases: self.aliases.deep_view(),
            package: self.package@,
            vulnerable_range: self.vulnerable_range@,
            severity: self.severity,
            title: self.title@,
            url: self.url.deep_view(),
            cwe: self.cwe.deep_view(),
            cvss_score: self.cvss_score.deep_view(),
            cvss_vector: self.cvss_vector.deep_view(),
            matched_version: self.matched_version@,
        }
    }
}

/// The same score again, where there is one.
fn copy_score(score: &Option<Score>) -> (r: Option<Score>)
    ensures
        r.deep_view() == score.deep_view(),
{
    match score {
        Some(s) => Some(s.copy()),
        None => None,
    }
}

impl Advisory {
    /// The same advisory again.
    pub fn copy(&self) -> (r: Advisory)
        ensures
            r.deep_view() == self.deep_view(),
    {
        Advisory {
            source: self.source,
            id: self.id.clone(),
            aliases: copy_texts(&self.aliases),
            package: self.package.clone(),
            vulnerable_range: self.vulnerable_range.clone(),
            severity: self.severity,
            title: self.title.clone(),
            url: copy_opt(&self.url),
            cwe: copy_texts(&self.cwe),
            cvss_score: copy_score(&self.cvss_score),
            cvss_vector: copy_opt(&self.cvss_vector),
            matched_version: self.matched_version.clone(),
        }
    }
}

/// An id as ids are compared: trimmed and in upper case.
pub open spec fn id_key() -> spec_fn(Seq<char>) -> Seq<char> {
    |s: Seq<char>| uppered(trimmed(s))
}

/// Whether an id, as ids are compared, is known to several sources: a GHSA or a CVE.
pub open spec fn is_shared_id() -> spec_fn(Seq<char>) -> bool {
    |key: Seq<char>| "GHSA-"@.is_prefix_of(key) || "CVE-"@.is_prefix_of(key)
}

/// The ids by which an advisory is recognised: those of its id and its aliases that are known
/// to several sources.
pub open spec fn keys_of(a: AdvisoryView) -> Seq<Seq<char>> {
    (seq![a.id] + a.aliases).map_values(id_key()).filter(is_shared_id())
}

/// Whether two advisories are of the same vulnerability of the same package.
pub open spec fn is_same(a: AdvisoryView, b: AdvisoryView) -> bool {
    a.package == b.package && exists|i: int|
        0 <= i < keys_of(a).len() && keys_of(b).contains(#[trigger] keys_of(a)[i])
}

/// `a` with `alias` among its aliases, unless it is there already or is its id.
pub open spec fn with_alias(a: AdvisoryView, alias: Seq<char>) -> AdvisoryView {
    if a.aliases.map_values(id_key()).contains(id_key()(alias)) || a.id == alias {
        a
    } else {
        AdvisoryView { aliases: a.aliases.push(alias), ..a }
    }
}

/// `a` with all of `aliases` among its own.
pub open spec fn with_aliases(a: AdvisoryView, aliases: Seq<Seq<char>>) -> AdvisoryView
    decreases aliases.len(),
{
    if aliases.len() == 0 {
        a
    } else {
        with_alias(with_aliases(a, aliases.drop_last()), aliases.last())
    }
}

/// The first of two values that is there.
pub open spec fn either<A>(a: Option<A>, b: Option<A>) -> Option<A> {
    match a {
        Some(x) => Some(x),
        None => b,
    }
}

/// `into` with what `from` has and it lacks: aliases, URL, weaknesses, CVSS and severity.
pub open spec fn merged(into: AdvisoryView, from: AdvisoryView) -> AdvisoryView {
    let named = if is_shared_id()(id_key()(from.id)) {
        with_alias(into, from.id)
    } else {
        into
    };
    let all = with_aliases(named, from.aliases);
    AdvisoryView {
        url: either(into.url, from.url),
        cwe: if into.cwe.len() == 0 {
            from.cwe
        } else {
            into.cwe
        },
        cvss_score: either(into.cvss_score, from.cvss_score),
        cvss_vector: either(into.cvss_vector, from.cvss_vector),
        severity: either(into.severity, from.severity),
        ..all
    }
}

/// The first advisory from `from` on that is of the same vulnerability as `a`.
pub open spec fn first_same(list: Seq<AdvisoryView>, a: AdvisoryView, from: int) -> Option<int>
    decreases list.len() - from,
{
    if from < 0 || from >= list.len() {
        None
    } else if is_same(list[from], a) {
        Some(from)
    } else {
        first_same(list, a, from + 1)
    }
}

/// Whether an advisory is of the same vulnerability as `a`.
pub open spec fn joins(a: AdvisoryView) -> spec_fn(AdvisoryView) -> bool {
    |b: AdvisoryView| is_same(b, a)
}

/// Whether an advisory is of another vulnerability than `a`.
pub open spec fn stays_beside(a: AdvisoryView) -> spec_fn(AdvisoryView) -> bool {
    |b: AdvisoryView| !is_same(b, a)
}

/// `into` with what the others have and it lacks, in their order.
pub open spec fn merged_all(into: AdvisoryView, others: Seq<AdvisoryView>) -> AdvisoryView
    decreases others.len(),
{
    if others.len() == 0 {
        into
    } else {
        merged(merged_all(into, others.drop_last()), others.last())
    }
}

/// A list with `a` put in: behind all, where none is of the same vulnerability; else all of the
/// same vulnerability, and `a` at last, are merged into the first such, and the others stay.
pub open spec fn with_advisory(list: Seq<AdvisoryView>, a: AdvisoryView) -> Seq<AdvisoryView> {
    match first_same(list, a, 0) {
        Some(i) => {
            let rest = list.skip(i + 1);
            list.take(i).push(merged(merged_all(list[i], rest.filter(joins(a))), a))
                + rest.filter(stays_beside(a))
        },
        None => list.push(a),
    }
}

/// The advisories with all of the same vulnerability made one, in the place of the first.
pub open spec fn deduped(list: Seq<AdvisoryView>) -> Seq<AdvisoryView>
    decreases list.len(),
{
    if list.len() == 0 {
        list
    } else {
        with_advisory(deduped(list.drop_last()), list.last())
    }
}

/// Whether no two of the advisories are of the same vulnerability of the same package.
pub open spec fn all_distinct(list: Seq<AdvisoryView>) -> bool {
    forall|i: int, j: int|
        0 <= i < j < list.len() ==> !is_same(#[trigger] list[i], #[trigger] list[j])
}

/// An id as ids are compared.
fn key_of(id: &str) -> (r: String)
    ensures
        r@ == id_key()(id@),
{
    ascii_upper(trim(id).as_str())
}

/// Whether an id, as ids are compared, is known to several sources.
fn is_shared(key: &str) -> (r: bool)
    ensures
        r == is_shared_id()(key@),
{
    starts_with(key, "GHSA-") || starts_with(key, "CVE-")
}

/// The ids by which an advisory is recognised.
fn advisory_keys(a: &Advisory) -> (r: Vec<String>)
    ensures
        r.deep_view() == keys_of(a.deep_view()),
{
    let ghost ids = seq![a.id@] + a.aliases.deep_view();
    let ghost all = ids.map_values(id_key());
    let mut out: Vec<String> = Vec::new();
    let first = key_of(a.id.as_str());
    proof {
        assert(all.take(1) =~= Seq::<Seq<char>>::empty().push(first@));
        Seq::<Seq<char>>::empty().lemma_filter_push(first@, is_shared_id());
        assert(Seq::<Seq<char>>::empty().filter(is_shared_id()) =~= Seq::<Seq<char>>::empty()) by {
            reveal(Seq::filter);
        }
        assert(out.deep_view() =~= Seq::<Seq<char>>::empty());
    }
    if is_shared(first.as_str()) {
        let ghost v = first@;
        out.push(first);
        assert(out.deep_view() =~= Seq::<Seq<char>>::empty().push(v));
    }
    let mut i: usize = 0;
    while i < a.aliases.len()
        invariant
            i <= a.aliases.len(),
            ids == seq![a.id@] + a.aliases.deep_view(),
            all == ids.map_values(id_key()),
            out.deep_view() == all.take(i + 1).filter(is_shared_id()),
        decreases a.aliases.len() - i,
    {
        let ghost done = out.deep_view();
        let key = key_of(a.aliases[i].as_str());
        let ghost v = key@;
        proof {
            assert(ids[i + 1] == a.aliases.deep_view()[i as int]);
            assert(all[i + 1] == v);
            assert(all.take(i + 2) =~= all.take(i + 1).push(v));
            all.take(i + 1).lemma_filter_push(v, is_shared_id());
        }
        if is_shared(key.as_str()) {
            out.push(key);
            assert(out.deep_view() =~= done.push(v));
        }
        i += 1;
    }
    assert(all.take(all.len() as int) =~= all);
    out
}

/// Whether two advisories are of the same vulnerability of the same package.
fn same_vulnerability(a: &Advisory, b: &Advisory) -> (r: bool)
    ensures
        r == is_same(a.deep_view(), b.deep_view()),
{
    if a.package != b.package {
        return false;
    }
    let mine = advisory_keys(a);
    let theirs = advisory_keys(b);
    let mut i: usize = 0;
    while i < mine.len()
        invariant
            i <= mine.len(),
            mine.deep_view() == keys_of(a.deep_view()),
            theirs.deep_view() == keys_of(b.deep_view()),
            a.package@ == b.package@,
            forall|j: int|
                0 <= j < i ==> !keys_of(b.deep_view()).contains(
                    #[trigger] keys_of(a.deep_view())[j],
                ),
        decreases mine.len() - i,
    {
        if any_is(&theirs, mine[i].as_str()) {
            assert(keys_of(b.deep_view()).contains(keys_of(a.deep_view())[i as int]));
            return true;
        }
        i += 1;
    }
    false
}

/// Puts `alias` among the aliases of `a`, unless it is there already or is its id.
fn add_alias(a: &mut Advisory, alias: &str)
    ensures
        final(a).deep_view() == with_alias(old(a).deep_view(), alias@),
{
    let ghost before = a.deep_view();
    let key = key_of(alias);
    let mut known = false;
    let mut i: usize = 0;
    while i < a.aliases.len()
        invariant
            i <= a.aliases.len(),
            before == a.deep_view(),
            *a == *old(a),
            key@ == id_key()(alias@),
            known == exists|j: int|
                0 <= j < i && #[trigger] before.aliases.map_values(id_key())[j] == key@,
        decreases a.aliases.len() - i,
    {
        assert(before.aliases.map_values(id_key())[i as int] == id_key()(
            a.aliases@[i as int]@,
        ));
        if same(key_of(a.aliases[i].as_str()).as_str(), key.as_str()) {
            known = true;
        }
        i += 1;
    }
    assert(known == before.aliases.map_values(id_key()).contains(key@));
    if !known && !same(a.id.as_str(), alias) {
        a.aliases.push(alias.to_owned());
        assert(a.aliases.deep_view() =~= before.aliases.push(alias@));
    }
}

/// `into` with what `from` has and it lacks.
fn merge_advisory(into: &mut Advisory, from: &Advisory)
    ensures
        final(into).deep_view() == merged(old(into).deep_view(), from.deep_view()),
{
    let ghost before = into.deep_view();
    if is_shared(key_of(from.id.as_str()).as_str()) {
        add_alias(into, from.id.as_str());
    }
    let ghost named = into.deep_view();
    let ghost extra = from.aliases.deep_view();
    let mut i: usize = 0;
    while i < from.aliases.len()
        invariant
            i <= from.aliases.len(),
            extra == from.aliases.deep_view(),
            into.deep_view() == with_aliases(named, extra.take(i as int)),
        decreases from.aliases.len() - i,
    {
        assert(extra.take(i + 1).drop_last() =~= extra.take(i as int));
        add_alias(into, from.aliases[i].as_str());
        i += 1;
    }
    assert(extra.take(extra.len() as int) =~= extra);
    proof {
        lemma_aliases_only(named, extra);
    }
    if into.url.is_none() {
        into.url = copy_opt(&from.url);
    }
    if into.cwe.len() == 0 {
        into.cwe = copy_texts(&from.cwe);
    }
    if into.cvss_score.is_none() {
        into.cvss_score = copy_score(&from.cvss_score);
    }
    if into.cvss_vector.is_none() {
        into.cvss_vector = copy_opt(&from.cvss_vector);
    }
    if into.severity.is_none() {
        into.severity = from.severity;
    }
}

/// Adding aliases changes nothing but the aliases.
proof fn lemma_aliases_only(a: AdvisoryView, aliases: Seq<Seq<char>>)
    ensures
        with_aliases(a, aliases) == (AdvisoryView {
            aliases: with_aliases(a, aliases).aliases,
            ..a
        }),
    decreases aliases.len(),
{
    if aliases.len() > 0 {
        lemma_aliases_only(a, aliases.drop_last());
    }
}

/// The same advisories, up to the place `n`, again.
fn copy_front(list: &Vec<Advisory>, n: usize) -> (r: Vec<Advisory>)
    requires
        n <= list@.len(),
    ensures
        r.deep_view() == list.deep_view().take(n as int),
{
    let ghost all = list.deep_view();
    let mut out: Vec<Advisory> = Vec::new();
    let mut i: usize = 0;
    assert(out.deep_view() =~= all.take(0));
    while i < n
        invariant
            i <= n <= list@.len(),
            all == list.deep_view(),
            out.deep_view() == all.take(i as int),
        decreases n - i,
    {
        let ghost done = out.deep_view();
        out.push(list[i].copy());
        assert(out.deep_view() =~= done.push(all[i as int]));
        assert(all.take(i + 1) =~= done.push(all[i as int]));
        i += 1;
    }
    out
}

/// A list with `a` put in.
fn put_advisory(list: Vec<Advisory>, a: &Advisory) -> (r: Vec<Advisory>)
    ensures
        r.deep_view() == with_advisory(list.deep_view(), a.deep_view()),
{
    let ghost all = list.deep_view();
    let ghost v = a.deep_view();
    match find_same(&list, a) {
        None => {
            let mut out = list;
            out.push(a.copy());
            assert(out.deep_view() =~= all.push(v));
            out
        },
        Some(k) => {
            let ghost rest = all.skip(k + 1);
            let mut first = list[k].copy();
            let mut others: Vec<Advisory> = Vec::new();
            let mut i: usize = k + 1;
            proof {
                reveal(Seq::filter);
                assert(rest.take(0) =~= Seq::<AdvisoryView>::empty());
                assert(others.deep_view() =~= Seq::<AdvisoryView>::empty());
            }
            while i < list.len()
                invariant
                    k < i <= list@.len(),
                    all == list.deep_view(),
                    v == a.deep_view(),
                    rest == all.skip(k + 1),
                    first.deep_view() == merged_all(
                        all[k as int],
                        rest.take(i - k - 1).filter(joins(v)),
                    ),
                    others.deep_view() == rest.take(i - k - 1).filter(stays_beside(v)),
                decreases list@.len() - i,
            {
                let ghost seen = rest.take(i - k - 1);
                let ghost done = others.deep_view();
                let ghost x = all[i as int];
                proof {
                    assert(rest[i - k - 1] == x);
                    assert(rest.take(i - k) =~= seen.push(x));
                    seen.lemma_filter_push(x, joins(v));
                    seen.lemma_filter_push(x, stays_beside(v));
                }
                if same_vulnerability(&list[i], a) {
                    merge_advisory(&mut first, &list[i]);
                    assert(seen.filter(joins(v)).push(x).drop_last() =~= seen.filter(joins(v)));
                } else {
                    others.push(list[i].copy());
                    assert(others.deep_view() =~= done.push(x));
                }
                i += 1;
            }
            assert(rest.take(rest.len() as int) =~= rest);
            merge_advisory(&mut first, a);
            let mut out = copy_front(&list, k);
            let ghost f = first.deep_view();
            out.push(first);
            let ghost head = all.take(k as int).push(f);
            assert(out.deep_view() =~= head);
            let ghost tail = others.deep_view();
            let mut j: usize = 0;
            assert(head + tail.take(0) =~= head);
            while j < others.len()
                invariant
                    j <= others@.len(),
                    tail == others.deep_view(),
                    out.deep_view() == head + tail.take(j as int),
                decreases others@.len() - j,
            {
                let ghost done = out.deep_view();
                out.push(others[j].copy());
                assert(out.deep_view() =~= done.push(tail[j as int]));
                assert(head + tail.take(j + 1) =~= done.push(tail[j as int]));
                j += 1;
            }
            assert(tail.take(tail.len() as int) =~= tail);
            out
        },
    }
}

/// Makes one of the advisories of the same vulnerability of the same package, which are joined
/// by any GHSA or CVE id that they share. The first of them stays in its place and takes what it
/// lacks from the others. No two that are left share such an id.
pub fn dedup_advisories(advisories: Vec<Advisory>) -> (r: Vec<Advisory>)
    ensures
        r.deep_view() == deduped(advisories.deep_view()),
        all_distinct(r.deep_view()),
{
    let ghost all = advisories.deep_view();
    let mut out: Vec<Advisory> = Vec::new();
    let mut i: usize = 0;
    assert(out.deep_view() =~= deduped(all.take(0)));
    while i < advisories.len()
        invariant
            i <= advisories.len(),
            all == advisories.deep_view(),
            out.deep_view() == deduped(all.take(i as int)),
        decreases advisories.len() - i,
    {
        assert(all.take(i + 1).drop_last() =~= all.take(i as int));
        out = put_advisory(out, &advisories[i]);
        i += 1;
    }
    assert(all.take(all.len() as int) =~= all);
    proof {
        dedup_leaves_none_alike(all);
    }
    out
}

/// The first advisory that is of the same vulnerability as `a`.
fn find_same(list: &Vec<Advisory>, a: &Advisory) -> (r: Option<usize>)
    ensures
        match r {
            Some(k) => first_same(list.deep_view(), a.deep_view(), 0) == Some(k as int) && k
                < list@.len(),
            None => first_same(list.deep_view(), a.deep_view(), 0) is None,
        },
{
    let ghost all = list.deep_view();
    let mut i: usize = 0;
    while i < list.len()
        invariant
            i <= list.len(),
            all == list.deep_view(),
            first_same(all, a.deep_view(), 0) == first_same(all, a.deep_view(), i as int),
        decreases list.len() - i,
    {
        if same_vulnerability(&list[i], a) {
            return Some(i);
        }
        i += 1;
    }
    None
}

/// The ids of an advisory are those of its id and its aliases that are known to several
/// sources.
proof fn lemma_keys(a: AdvisoryView, key: Seq<char>)
    ensures
        keys_of(a).contains(key) <==> is_shared_id()(key) && (id_key()(a.id) == key
            || a.aliases.map_values(id_key()).contains(key)),
{
    let ids = seq![a.id] + a.aliases;
    let all = ids.map_values(id_key());
    if keys_of(a).contains(key) {
        let i = choose|i: int| 0 <= i < keys_of(a).len() && keys_of(a)[i] == key;
        all.lemma_filter_pred(is_shared_id(), i);
        all.lemma_filter_contains_rev(is_shared_id(), key);
        let j = choose|j: int| 0 <= j < all.len() && all[j] == key;
        if j > 0 {
            assert(ids[j] == a.aliases[j - 1]);
            assert(a.aliases.map_values(id_key())[j - 1] == key);
        }
    }
    if is_shared_id()(key) && id_key()(a.id) == key {
        assert(ids[0] == a.id);
        assert(all[0] == key);
        all.lemma_filter_contains(is_shared_id(), 0);
    }
    if is_shared_id()(key) && a.aliases.map_values(id_key()).contains(key) {
        let j = choose|j: int|
            0 <= j < a.aliases.len() && a.aliases.map_values(id_key())[j] == key;
        assert(ids[j + 1] == a.aliases[j]);
        assert(all[j + 1] == key);
        all.lemma_filter_contains(is_shared_id(), j + 1);
    }
}

proof fn lemma_with_alias(a: AdvisoryView, alias: Seq<char>, key: Seq<char>)
    ensures
        keys_of(with_alias(a, alias)).contains(key) ==> keys_of(a).contains(key) || (is_shared_id()(
            key,
        ) && key == id_key()(alias)),
        keys_of(a).contains(key) ==> keys_of(with_alias(a, alias)).contains(key),
        is_shared_id()(key) && key == id_key()(alias) ==> keys_of(with_alias(a, alias)).contains(
            key,
        ),
{
    let b = with_alias(a, alias);
    lemma_keys(a, key);
    lemma_keys(b, key);
    if b != a {
        assert(b.aliases.map_values(id_key()) =~= a.aliases.map_values(id_key()).push(
            id_key()(alias),
        ));
        if a.aliases.map_values(id_key()).contains(key) {
            let j = choose|j: int|
                0 <= j < a.aliases.len() && a.aliases.map_values(id_key())[j] == key;
            assert(b.aliases.map_values(id_key())[j] == key);
        }
        assert(b.aliases.map_values(id_key())[a.aliases.len() as int] == id_key()(alias));
        if b.aliases.map_values(id_key()).contains(key) {
            let j = choose|j: int|
                0 <= j < b.aliases.len() && b.aliases.map_values(id_key())[j] == key;
            if j < a.aliases.len() {
                assert(a.aliases.map_values(id_key())[j] == key);
            }
        }
    }
}

proof fn lemma_with_aliases(a: AdvisoryView, aliases: Seq<Seq<char>>, key: Seq<char>)
    ensures
        keys_of(with_aliases(a, aliases)).contains(key) ==> keys_of(a).contains(key) || (
        is_shared_id()(key) && aliases.map_values(id_key()).contains(key)),
        keys_of(a).contains(key) ==> keys_of(with_aliases(a, aliases)).contains(key),
        is_shared_id()(key) && aliases.map_values(id_key()).contains(key) ==> keys_of(
            with_aliases(a, aliases),
        ).contains(key),
    decreases aliases.len(),
{
    if aliases.len() > 0 {
        lemma_with_aliases(a, aliases.drop_last(), key);
        lemma_with_alias(with_aliases(a, aliases.drop_last()), aliases.last(), key);
        if aliases.map_values(id_key()).contains(key) {
            let j = choose|j: int|
                0 <= j < aliases.len() && aliases.map_values(id_key())[j] == key;
            if j < aliases.len() - 1 {
                assert(aliases.drop_last().map_values(id_key())[j] == key);
            }
        }
        if aliases.drop_last().map_values(id_key()).contains(key) {
            let j = choose|j: int|
                0 <= j < aliases.len() - 1 && aliases.drop_last().map_values(id_key())[j] == key;
            assert(aliases.map_values(id_key())[j] == key);
        }
        assert(aliases.map_values(id_key())[aliases.len() - 1] == id_key()(aliases.last()));
    }
}

proof fn lemma_merged(into: AdvisoryView, from: AdvisoryView, key: Seq<char>)
    ensures
        keys_of(into).contains(key) ==> keys_of(merged(into, from)).contains(key),
        keys_of(from).contains(key) ==> keys_of(merged(into, from)).contains(key),
        keys_of(merged(into, from)).contains(key) ==> keys_of(into).contains(key) || keys_of(
            from,
        ).contains(key),
        merged(into, from).package == into.package,
        merged(into, from).id == into.id,
        merged(into, from).source == into.source,
        merged(into, from).vulnerable_range == into.vulnerable_range,
        merged(into, from).title == into.title,
{
    let named = if is_shared_id()(id_key()(from.id)) {
        with_alias(into, from.id)
    } else {
        into
    };
    let all = with_aliases(named, from.aliases);
    lemma_with_alias(into, from.id, key);
    lemma_with_aliases(named, from.aliases, key);
    lemma_aliases_only(named, from.aliases);
    lemma_keys(from, key);
    lemma_keys(all, key);
    lemma_keys(merged(into, from), key);
}

proof fn lemma_merged_all(into: AdvisoryView, others: Seq<AdvisoryView>, key: Seq<char>)
    ensures
        keys_of(merged_all(into, others)).contains(key) <==> keys_of(into).contains(key) || (exists|
            i: int,
        |
            0 <= i < others.len() && keys_of(#[trigger] others[i]).contains(key)),
        merged_all(into, others).package == into.package,
        merged_all(into, others).id == into.id,
        merged_all(into, others).source == into.source,
        merged_all(into, others).vulnerable_range == into.vulnerable_range,
        merged_all(into, others).title == into.title,
    decreases others.len(),
{
    if others.len() > 0 {
        let front = others.drop_last();
        lemma_merged_all(into, front, key);
        lemma_merged(merged_all(into, front), others.last(), key);
        if exists|i: int| 0 <= i < front.len() && keys_of(#[trigger] front[i]).contains(key) {
            let i = choose|i: int|
                0 <= i < front.len() && keys_of(#[trigger] front[i]).contains(key);
            assert(keys_of(others[i]).contains(key));
        }
        if exists|i: int| 0 <= i < others.len() && keys_of(#[trigger] others[i]).contains(key) {
            let i = choose|i: int|
                0 <= i < others.len() && keys_of(#[trigger] others[i]).contains(key);
            if i < front.len() {
                assert(keys_of(front[i]).contains(key));
            }
        }
        if keys_of(others.last()).contains(key) {
            assert(keys_of(others[others.len() - 1]).contains(key));
        }
    }
}

/// Advisories are of the same vulnerability where they are of one package and share an id.
proof fn lemma_same(a: AdvisoryView, b: AdvisoryView, key: Seq<char>)
    ensures
        a.package == b.package && keys_of(a).contains(key) && keys_of(b).contains(key) ==> is_same(
            a,
            b,
        ) && is_same(b, a),
{
    if keys_of(a).contains(key) && keys_of(b).contains(key) {
        let i = choose|i: int| 0 <= i < keys_of(a).len() && keys_of(a)[i] == key;
        let j = choose|j: int| 0 <= j < keys_of(b).len() && keys_of(b)[j] == key;
        assert(keys_of(b).contains(keys_of(a)[i]));
        assert(keys_of(a).contains(keys_of(b)[j]));
    }
}

/// The id that two advisories of the same vulnerability share.
proof fn shared_key(a: AdvisoryView, b: AdvisoryView) -> (key: Seq<char>)
    requires
        is_same(a, b),
    ensures
        a.package == b.package,
        keys_of(a).contains(key),
        keys_of(b).contains(key),
{
    let i = choose|i: int|
        0 <= i < keys_of(a).len() && keys_of(b).contains(#[trigger] keys_of(a)[i]);
    keys_of(a)[i]
}

proof fn lemma_first_same(list: Seq<AdvisoryView>, a: AdvisoryView, from: int)
    requires
        0 <= from,
    ensures
        match first_same(list, a, from) {
            Some(i) => from <= i < list.len() && is_same(list[i], a) && forall|j: int|
                from <= j < i ==> !is_same(#[trigger] list[j], a),
            None => forall|j: int| from <= j < list.len() ==> !is_same(#[trigger] list[j], a),
        },
    decreases list.len() - from,
{
    if from < list.len() && !is_same(list[from], a) {
        lemma_first_same(list, a, from + 1);
    }
}

/// What has its place in a list that is filtered has a later or the same place in the list.
proof fn lemma_filtered_at(list: Seq<AdvisoryView>, keep: spec_fn(AdvisoryView) -> bool, j: int)
    requires
        0 <= j < list.filter(keep).len(),
    ensures
        exists|k: int| 0 <= k < list.len() && #[trigger] list[k] == list.filter(keep)[j] && keep(
            list[k],
        ),
{
    let kept = list.filter(keep);
    list.lemma_filter_pred(keep, j);
    list.lemma_filter_contains_rev(keep, kept[j]);
    let k = choose|k: int| 0 <= k < list.len() && list[k] == kept[j];
    assert(list[k] == kept[j]);
}

/// What is left of distinct advisories is distinct.
proof fn lemma_filtered_distinct(list: Seq<AdvisoryView>, keep: spec_fn(AdvisoryView) -> bool)
    requires
        all_distinct(list),
    ensures
        all_distinct(list.filter(keep)),
    decreases list.len(),
{
    reveal(Seq::filter);
    if list.len() > 0 {
        let front = list.drop_last();
        assert forall|i: int, j: int| 0 <= i < j < front.len() implies !is_same(
            #[trigger] front[i],
            #[trigger] front[j],
        ) by {
            assert(!is_same(list[i], list[j]));
        }
        lemma_filtered_distinct(front, keep);
        let before = front.filter(keep);
        let kept = list.filter(keep);
        assert forall|i: int, j: int| 0 <= i < j < kept.len() implies !is_same(
            #[trigger] kept[i],
            #[trigger] kept[j],
        ) by {
            if j < before.len() {
                assert(!is_same(before[i], before[j]));
            } else {
                lemma_filtered_at(front, keep, i);
                let k = choose|k: int| 0 <= k < front.len() && #[trigger] front[k] == before[i];
                assert(!is_same(list[k], list[list.len() - 1]));
            }
        }
    }
}

/// Putting an advisory in keeps distinct ones distinct.
proof fn lemma_put_distinct(list: Seq<AdvisoryView>, a: AdvisoryView)
    requires
        all_distinct(list),
    ensures
        all_distinct(with_advisory(list, a)),
{
    let r = with_advisory(list, a);
    lemma_first_same(list, a, 0);
    match first_same(list, a, 0) {
        None => {},
        Some(n) => {
            let rest = list.skip(n + 1);
            let joined = rest.filter(joins(a));
            let others = rest.filter(stays_beside(a));
            let one = merged(merged_all(list[n], joined), a);
            assert forall|i: int, j: int| 0 <= i < j < rest.len() implies !is_same(
                #[trigger] rest[i],
                #[trigger] rest[j],
            ) by {
                assert(!is_same(list[n + 1 + i], list[n + 1 + j]));
            }
            lemma_filtered_distinct(rest, stays_beside(a));
            assert forall|i: int, j: int| 0 <= i < j < r.len() implies !is_same(
                #[trigger] r[i],
                #[trigger] r[j],
            ) by {
                if j < n {
                    assert(!is_same(list[i], list[j]));
                } else if i > n {
                    assert(!is_same(others[i - n - 1], others[j - n - 1]));
                } else if i < n && j > n {
                    lemma_filtered_at(rest, stays_beside(a), j - n - 1);
                    let k = choose|k: int|
                        0 <= k < rest.len() && #[trigger] rest[k] == others[j - n - 1];
                    assert(!is_same(list[i], list[n + 1 + k]));
                } else if i < n {
                    assert(r[j] == one);
                    lemma_apart(list, a, n, i);
                } else {
                    lemma_filtered_at(rest, stays_beside(a), j - n - 1);
                    let k = choose|k: int|
                        0 <= k < rest.len() && #[trigger] rest[k] == others[j - n - 1]
                            && stays_beside(a)(rest[k]);
                    assert(rest[k] == list[n + 1 + k]);
                    assert(r[i] == one && r[j] == list[n + 1 + k]);
                    lemma_apart(list, a, n, n + 1 + k);
                }
            }
        },
    }
}

/// What is of another vulnerability than `a` is of another than all that are merged for it.
proof fn lemma_apart(list: Seq<AdvisoryView>, a: AdvisoryView, n: int, m: int)
    requires
        all_distinct(list),
        0 <= n < list.len(),
        0 <= m < list.len(),
        m != n,
        is_same(list[n], a),
        !is_same(list[m], a),
    ensures
        ({
            let one = merged(merged_all(list[n], list.skip(n + 1).filter(joins(a))), a);
            !is_same(list[m], one) && !is_same(one, list[m])
        }),
{
    let rest = list.skip(n + 1);
    let joined = rest.filter(joins(a));
    let all = merged_all(list[n], joined);
    let one = merged(all, a);
    let b = list[m];
    lemma_merged_all(list[n], joined, Seq::empty());
    lemma_merged(all, a, Seq::empty());
    if is_same(b, one) || is_same(one, b) {
        let key = if is_same(b, one) {
            shared_key(b, one)
        } else {
            shared_key(one, b)
        };
        lemma_merged(all, a, key);
        lemma_merged_all(list[n], joined, key);
        let _ = shared_key(list[n], a);
        lemma_same(b, a, key);
        if keys_of(list[n]).contains(key) {
            lemma_same(b, list[n], key);
            if m < n {
                assert(!is_same(list[m], list[n]));
            } else {
                assert(!is_same(list[n], list[m]));
            }
        } else if !keys_of(a).contains(key) {
            let i = choose|i: int|
                0 <= i < joined.len() && keys_of(#[trigger] joined[i]).contains(key);
            lemma_filtered_at(rest, joins(a), i);
            let k = choose|k: int|
                0 <= k < rest.len() && #[trigger] rest[k] == joined[i] && joins(a)(rest[k]);
            let p = n + 1 + k;
            assert(list[p] == joined[i]);
            let _ = shared_key(list[p], a);
            lemma_same(b, list[p], key);
            assert(p != m);
            if m < p {
                assert(!is_same(list[m], list[p]));
            } else {
                assert(!is_same(list[p], list[m]));
            }
        }
    }
}

/// No two advisories that are left are of the same vulnerability of the same package: none of a
/// package shares a GHSA or CVE id with another.
pub proof fn dedup_leaves_none_alike(list: Seq<AdvisoryView>)
    ensures
        all_distinct(deduped(list)),
    decreases list.len(),
{
    if list.len() > 0 {
        dedup_leaves_none_alike(list.drop_last());
        lemma_put_distinct(deduped(list.drop_last()), list.last());
    }
}

/// Putting an advisory in loses no id of those in the list nor of its own.
proof fn lemma_put_keeps(
    list: Seq<AdvisoryView>,
    a: AdvisoryView,
    package: Seq<char>,
    key: Seq<char>,
) -> (j: int)
    requires
        (a.package == package && keys_of(a).contains(key)) || exists|i: int|
            0 <= i < list.len() && (#[trigger] list[i]).package == package && keys_of(
                list[i],
            ).contains(key),
    ensures
        0 <= j < with_advisory(list, a).len(),
        with_advisory(list, a)[j].package == package,
        keys_of(with_advisory(list, a)[j]).contains(key),
{
    let r = with_advisory(list, a);
    lemma_first_same(list, a, 0);
    match first_same(list, a, 0) {
        None => {
            if a.package == package && keys_of(a).contains(key) {
                list.len() as int
            } else {
                let i = choose|i: int|
                    0 <= i < list.len() && (#[trigger] list[i]).package == package && keys_of(
                        list[i],
                    ).contains(key);
                assert(r[i] == list[i]);
                i
            }
        },
        Some(n) => {
            let rest = list.skip(n + 1);
            let joined = rest.filter(joins(a));
            let others = rest.filter(stays_beside(a));
            lemma_merged_all(list[n], joined, key);
            lemma_merged(merged_all(list[n], joined), a, key);
            let _ = shared_key(list[n], a);
            assert(r[n] == merged(merged_all(list[n], joined), a));
            if a.package == package && keys_of(a).contains(key) {
                n
            } else {
                let i = choose|i: int|
                    0 <= i < list.len() && (#[trigger] list[i]).package == package && keys_of(
                        list[i],
                    ).contains(key);
                if i < n {
                    assert(r[i] == list[i]);
                    i
                } else if i == n {
                    n
                } else if is_same(list[i], a) {
                    let _ = shared_key(list[i], a);
                    assert(rest[i - n - 1] == list[i]);
                    rest.lemma_filter_contains(joins(a), i - n - 1);
                    let k = choose|k: int| 0 <= k < joined.len() && joined[k] == list[i];
                    assert(keys_of(joined[k]).contains(key));
                    n
                } else {
                    assert(rest[i - n - 1] == list[i]);
                    rest.lemma_filter_contains(stays_beside(a), i - n - 1);
                    let k = choose|k: int| 0 <= k < others.len() && others[k] == list[i];
                    assert(r[n + 1 + k] == list[i]);
                    n + 1 + k
                }
            }
        },
    }
}

/// No id by which an advisory is recognised is lost: some advisory that is left, of the same
/// package, has it.
pub proof fn dedup_loses_no_id(list: Seq<AdvisoryView>, i: int, key: Seq<char>) -> (j: int)
    requires
        0 <= i < list.len(),
        keys_of(list[i]).contains(key),
    ensures
        0 <= j < deduped(list).len(),
        deduped(list)[j].package == list[i].package,
        keys_of(deduped(list)[j]).contains(key),
    decreases list.len(),
{
    if i < list.len() - 1 {
        let k = dedup_loses_no_id(list.drop_last(), i, key);
        assert(deduped(list.drop_last())[k].package == list[i].package);
    }
    lemma_put_keeps(deduped(list.drop_last()), list.last(), list[i].package, key)
}

/// The first occurrence wins. A further advisory of no vulnerability that is among those that
/// are left comes behind them. Otherwise the first of its vulnerability stays in its place, with
/// its source, id, package, range and title; those before it and those of other vulnerabilities
/// stay as they are, in their order.
pub proof fn dedup_keeps_the_first(list: Seq<AdvisoryView>, a: AdvisoryView)
    ensures
        ({
            let before = deduped(list);
            let after = deduped(list.push(a));
            match first_same(before, a, 0) {
                None => after == before.push(a),
                Some(i) => {
                    &&& 0 <= i < before.len()
                    &&& is_same(before[i], a)
                    &&& after.take(i) == before.take(i)
                    &&& after[i].source == before[i].source
                    &&& after[i].id == before[i].id
                    &&& after[i].package == before[i].package
                    &&& after[i].vulnerable_range == before[i].vulnerable_range
                    &&& after[i].title == before[i].title
                    &&& after.skip(i + 1) == before.skip(i + 1).filter(stays_beside(a))
                },
            }
        }),
{
    let before = deduped(list);
    let after = deduped(list.push(a));
    assert(list.push(a).drop_last() =~= list);
    lemma_first_same(before, a, 0);
    if let Some(i) = first_same(before, a, 0) {
        let rest = before.skip(i + 1);
        let joined = rest.filter(joins(a));
        lemma_merged_all(before[i], joined, Seq::empty());
        lemma_merged(merged_all(before[i], joined), a, Seq::empty());
        assert(after[i] == merged(merged_all(before[i], joined), a));
        assert(after.take(i) =~= before.take(i));
        assert(after.skip(i + 1) =~= rest.filter(stays_beside(a)));
    }
}

} // verus!
