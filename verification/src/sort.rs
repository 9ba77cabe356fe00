//! Stable sorting of values that carry a total preorder.

use crate::text::{at_most, text_leq};
use vstd::prelude::*;

verus! {

/// A type whose values are ordered, each by what its view holds.
pub trait Sortable: DeepView + Sized {
    /// Whether `a` may stand before `b`.
    spec fn leq(a: Self::V, b: Self::V) -> bool;

    /// Of two values one may stand before the other.
    proof fn leq_total(a: Self::V, b: Self::V)
        ensures
            Self::leq(a, b) || Self::leq(b, a),
    ;

    /// What may stand before `b` may stand before all that `b` may stand before.
    proof fn leq_transitive(a: Self::V, b: Self::V, c: Self::V)
        requires
            Self::leq(a, b),
            Self::leq(b, c),
        ensures
            Self::leq(a, c),
    ;

    /// Whether `self` may stand before `other`.
    fn may_precede(&self, other: &Self) -> (r: bool)
        ensures
            r == Self::leq(self.deep_view(), other.deep_view()),
    ;
}

/// `sorted` with `x` put in behind the last value that may stand before it.
pub open spec fn insert_sorted<T: Sortable>(sorted: Seq<T::V>, x: T::V) -> Seq<T::V>
    decreases sorted.len(),
{
    if sorted.len() == 0 || T::leq(sorted.last(), x) {
        sorted.push(x)
    } else {
        insert_sorted::<T>(sorted.drop_last(), x).push(sorted.last())
    }
}

/// The values of `s` in their order; values of the same rank stay as they stood.
pub open spec fn stable_sort<T: Sortable>(s: Seq<T::V>) -> Seq<T::V>
    decreases s.len(),
{
    if s.len() == 0 {
        s
    } else {
        insert_sorted::<T>(stable_sort::<T>(s.drop_last()), s.last())
    }
}

/// Whether no value of `s` stands behind one that it should precede.
pub open spec fn is_sorted<T: Sortable>(s: Seq<T::V>) -> bool {
    forall|i: int, j: int| 0 <= i <= j < s.len() ==> T::leq(#[trigger] s[i], #[trigger] s[j])
}

/// The values that rank with `x`.
pub open spec fn ranks_with<T: Sortable>(x: T::V) -> spec_fn(T::V) -> bool {
    |y: T::V| T::leq(x, y) && T::leq(y, x)
}

proof fn lemma_insert_sorted<T: Sortable>(s: Seq<T::V>, x: T::V)
    requires
        is_sorted::<T>(s),
    ensures
        is_sorted::<T>(insert_sorted::<T>(s, x)),
        insert_sorted::<T>(s, x).len() == s.len() + 1,
        insert_sorted::<T>(s, x).to_multiset() == s.push(x).to_multiset(),
        forall|i: int|
            0 <= i < s.len() + 1 ==> #[trigger] insert_sorted::<T>(s, x)[i] == x || s.contains(
                insert_sorted::<T>(s, x)[i],
            ),
    decreases s.len(),
{
    broadcast use vstd::seq_lib::group_to_multiset_ensures;

    let r = insert_sorted::<T>(s, x);
    T::leq_total(x, x);
    if s.len() == 0 {
        assert(r =~= seq![x]);
    } else if T::leq(s.last(), x) {
        assert forall|i: int, j: int| 0 <= i <= j < r.len() implies T::leq(
            #[trigger] r[i],
            #[trigger] r[j],
        ) by {
            if j == s.len() && i < j {
                assert(T::leq(s[i], s[s.len() - 1]));
                T::leq_transitive(s[i], s.last(), x);
            }
        }
        assert forall|i: int| 0 <= i < r.len() implies #[trigger] r[i] == x || s.contains(r[i]) by {
            if i < s.len() {
                assert(r[i] == s[i]);
            }
        }
    } else {
        let t = s.drop_last();
        let u = insert_sorted::<T>(t, x);
        lemma_insert_sorted::<T>(t, x);
        T::leq_total(s.last(), x);
        assert forall|i: int, j: int| 0 <= i <= j < r.len() implies T::leq(
            #[trigger] r[i],
            #[trigger] r[j],
        ) by {
            if j < u.len() {
                assert(T::leq(u[i], u[j]));
            } else if i < u.len() {
                assert(r[i] == u[i]);
                if u[i] != x {
                    assert(t.contains(u[i]));
                    let k = choose|k: int| 0 <= k < t.len() && t[k] == u[i];
                    assert(T::leq(s[k], s[s.len() - 1]));
                }
            } else {
                T::leq_total(s.last(), s.last());
            }
        }
        assert forall|i: int| 0 <= i < r.len() implies #[trigger] r[i] == x || s.contains(r[i]) by {
            if i < u.len() {
                assert(r[i] == u[i]);
                if u[i] != x {
                    let k = choose|k: int| 0 <= k < t.len() && t[k] == u[i];
                    assert(s[k] == r[i]);
                }
            } else {
                assert(r[i] == s[s.len() - 1]);
            }
        }
        assert(s =~= t.push(s.last()));
        assert(r.to_multiset() =~= s.push(x).to_multiset());
    }
}

/// Putting `x` in keeps the values of each rank as they stood, with `x` last of its own.
proof fn lemma_insert_stable<T: Sortable>(s: Seq<T::V>, x: T::V, y: T::V)
    ensures
        insert_sorted::<T>(s, x).filter(ranks_with::<T>(y)) == s.push(x).filter(ranks_with::<T>(y)),
    decreases s.len(),
{
    let rank = ranks_with::<T>(y);
    if s.len() > 0 && !T::leq(s.last(), x) {
        let t = s.drop_last();
        lemma_insert_stable::<T>(t, x, y);
        let u = insert_sorted::<T>(t, x);
        assert(s =~= t.push(s.last()));
        u.lemma_filter_push(s.last(), rank);
        t.lemma_filter_push(x, rank);
        t.lemma_filter_push(s.last(), rank);
        s.lemma_filter_push(x, rank);
        if rank(s.last()) && rank(x) {
            T::leq_transitive(s.last(), y, x);
        }
    }
}

/// Sorting puts the values in order, loses and adds none, and keeps the values
/// of each rank as they stood.
pub proof fn sorting_is_stable<T: Sortable>(s: Seq<T::V>)
    ensures
        is_sorted::<T>(stable_sort::<T>(s)),
        stable_sort::<T>(s).len() == s.len(),
        stable_sort::<T>(s).to_multiset() == s.to_multiset(),
        forall|y: T::V|
            stable_sort::<T>(s).filter(#[trigger] ranks_with::<T>(y)) == s.filter(
                ranks_with::<T>(y),
            ),
    decreases s.len(),
{
    broadcast use vstd::seq_lib::group_to_multiset_ensures;

    reveal(Seq::filter);
    if s.len() > 0 {
        let t = s.drop_last();
        let u = stable_sort::<T>(t);
        sorting_is_stable::<T>(t);
        lemma_insert_sorted::<T>(u, s.last());
        assert(s =~= t.push(s.last()));
        assert(u.push(s.last()).to_multiset() =~= s.to_multiset());
        assert forall|y: T::V|
            stable_sort::<T>(s).filter(#[trigger] ranks_with::<T>(y)) == s.filter(
                ranks_with::<T>(y),
            ) by {
            lemma_insert_stable::<T>(u, s.last(), y);
            assert(u.push(s.last()).drop_last() =~= u);
            assert(t.push(s.last()).drop_last() =~= t);
        }
    }
}

/// What is in order stays as it is when it is sorted.
pub proof fn lemma_sorted_stays<T: Sortable>(s: Seq<T::V>)
    requires
        is_sorted::<T>(s),
    ensures
        stable_sort::<T>(s) == s,
    decreases s.len(),
{
    if s.len() > 0 {
        let front = s.drop_last();
        assert forall|i: int, j: int| 0 <= i <= j < front.len() implies T::leq(
            #[trigger] front[i],
            #[trigger] front[j],
        ) by {
            assert(T::leq(s[i], s[j]));
        }
        lemma_sorted_stays::<T>(front);
        if front.len() > 0 {
            assert(T::leq(s[front.len() - 1], s[s.len() - 1]));
        }
        assert(front.push(s.last()) =~= s);
    }
}

/// What is left of values in order is in order.
pub proof fn lemma_filtered_sorted<T: Sortable>(s: Seq<T::V>, keep: spec_fn(T::V) -> bool)
    requires
        is_sorted::<T>(s),
    ensures
        is_sorted::<T>(s.filter(keep)),
    decreases s.len(),
{
    reveal(Seq::filter);
    if s.len() > 0 {
        let front = s.drop_last();
        assert forall|i: int, j: int| 0 <= i <= j < front.len() implies T::leq(
            #[trigger] front[i],
            #[trigger] front[j],
        ) by {
            assert(T::leq(s[i], s[j]));
        }
        lemma_filtered_sorted::<T>(front, keep);
        let before = front.filter(keep);
        let kept = s.filter(keep);
        if keep(s.last()) {
            assert forall|i: int, j: int| 0 <= i <= j < kept.len() implies T::leq(
                #[trigger] kept[i],
                #[trigger] kept[j],
            ) by {
                if j < before.len() {
                    assert(T::leq(before[i], before[j]));
                } else if i < before.len() {
                    front.lemma_filter_contains_rev(keep, before[i]);
                    let k = choose|k: int| 0 <= k < front.len() && front[k] == before[i];
                    assert(T::leq(s[k], s[s.len() - 1]));
                } else {
                    assert(T::leq(s[s.len() - 1], s[s.len() - 1]));
                }
            }
        }
    }
}

/// Sequences with the same values contain the same ones.
pub proof fn lemma_same_values<A>(s: Seq<A>, t: Seq<A>, x: A)
    requires
        s.to_multiset() == t.to_multiset(),
        s.contains(x),
    ensures
        t.contains(x),
{
    broadcast use vstd::seq_lib::group_to_multiset_ensures;

    assert(s.to_multiset().count(x) > 0);
    assert(t.to_multiset().count(x) > 0);
}

/// Whether the keys of the values are all different.
pub open spec fn differ_by<A, K>(s: Seq<A>, key: spec_fn(A) -> K) -> bool {
    forall|i: int, j: int| 0 <= i < j < s.len() ==> key(#[trigger] s[i]) != key(#[trigger] s[j])
}

/// Sorting keeps different keys different.
pub proof fn lemma_sorted_differ<T: Sortable, K>(s: Seq<T::V>, key: spec_fn(T::V) -> K)
    requires
        differ_by(s, key),
    ensures
        differ_by(stable_sort::<T>(s), key),
{
    let sorted = stable_sort::<T>(s);
    sorting_is_stable::<T>(s);
    assert(s.no_duplicates()) by {
        assert forall|i: int, j: int| 0 <= i < s.len() && 0 <= j < s.len() && i != j implies s[i]
            != s[j] by {
            if i < j {
                assert(key(s[i]) != key(s[j]));
            } else {
                assert(key(s[j]) != key(s[i]));
            }
        }
    }
    s.lemma_multiset_has_no_duplicates();
    sorted.lemma_multiset_has_no_duplicates_conv();
    assert forall|i: int, j: int| 0 <= i < j < sorted.len() implies key(#[trigger] sorted[i]) != key(
        #[trigger] sorted[j],
    ) by {
        assert(sorted[i] != sorted[j]);
        assert(sorted.contains(sorted[i]) && sorted.contains(sorted[j]));
        lemma_same_values(sorted, s, sorted[i]);
        lemma_same_values(sorted, s, sorted[j]);
        let k = choose|k: int| 0 <= k < s.len() && s[k] == sorted[i];
        let l = choose|l: int| 0 <= l < s.len() && s[l] == sorted[j];
        if k < l {
            assert(key(s[k]) != key(s[l]));
        } else {
            assert(key(s[l]) != key(s[k]));
        }
    }
}

/// What a value is mapped to is among what all are mapped to.
pub proof fn lemma_mapped<A, B>(s: Seq<A>, f: spec_fn(A) -> Option<B>, i: int)
    requires
        0 <= i < s.len(),
        f(s[i]) is Some,
    ensures
        s.filter_map(f).contains(f(s[i])->Some_0),
    decreases s.len(),
{
    let n = s.len() - 1;
    s.lemma_filter_map_take_succ(f, n);
    assert(s.take(s.len() as int) =~= s);
    let before = s.take(n).filter_map(f);
    if i < n {
        lemma_mapped(s.take(n), f, i);
        let k = choose|k: int| 0 <= k < before.len() && before[k] == f(s[i])->Some_0;
        assert(s.filter_map(f)[k] == before[k]);
    } else {
        assert(s.filter_map(f).last() == f(s[i])->Some_0);
        assert(s.filter_map(f).contains(s.filter_map(f).last()));
    }
}

/// What values are mapped to stands in the order of the values.
pub proof fn lemma_mapped_in_order<A, B>(
    s: Seq<A>,
    f: spec_fn(A) -> Option<B>,
    i: int,
    j: int,
) -> (places: (int, int))
    requires
        0 <= i < j < s.filter_map(f).len(),
    ensures
        0 <= places.0 < places.1 < s.len(),
        f(s[places.0]) == Some(s.filter_map(f)[i]),
        f(s[places.1]) == Some(s.filter_map(f)[j]),
    decreases s.len(),
{
    if s.len() == 0 {
        reveal(Seq::filter_map);
        assert(s.filter_map(f).len() == 0);
        (0, 0)
    } else {
        let n = s.len() - 1;
        let front = s.take(n);
        s.lemma_filter_map_take_succ(f, n);
        assert(s.take(s.len() as int) =~= s);
        let before = front.filter_map(f);
        if j < before.len() {
            lemma_mapped_in_order(front, f, i, j)
        } else {
            assert(before.contains(before[i]));
            front.lemma_filter_map_contains(f, before[i]);
            let t = choose|t: A| front.contains(t) && f(t) == Some(before[i]);
            let k = choose|k: int| 0 <= k < front.len() && front[k] == t;
            (k, n)
        }
    }
}

/// `values` in order; values of the same rank stay as they stood.
pub fn sort_stable<T: Sortable>(values: Vec<T>) -> (r: Vec<T>)
    ensures
        r.deep_view() == stable_sort::<T>(values.deep_view()),
{
    let ghost all = values.deep_view();
    let mut rest = values;
    let mut reversed: Vec<T> = Vec::new();
    while rest.len() > 0
        invariant
            all.len() == rest@.len() + reversed@.len(),
            rest.deep_view() == all.take(rest@.len() as int),
            forall|i: int|
                0 <= i < reversed@.len() ==> (#[trigger] reversed@[i]).deep_view() == all[all.len()
                    - 1 - i],
        decreases rest.len(),
    {
        let ghost before = rest.deep_view();
        if let Some(x) = rest.pop() {
            assert(before[rest@.len() as int] == x.deep_view());
            reversed.push(x);
            assert(rest.deep_view() =~= all.take(rest@.len() as int));
        }
    }
    let mut out: Vec<T> = Vec::new();
    assert(out.deep_view() =~= stable_sort::<T>(all.take(0)));
    while reversed.len() > 0
        invariant
            reversed@.len() <= all.len(),
            out.deep_view() == stable_sort::<T>(all.take(all.len() - reversed@.len())),
            forall|i: int|
                0 <= i < reversed@.len() ==> (#[trigger] reversed@[i]).deep_view() == all[all.len()
                    - 1 - i],
        decreases reversed.len(),
    {
        let ghost n = all.len() - reversed@.len();
        if let Some(x) = reversed.pop() {
            let ghost next = all.take(n + 1);
            assert(next.drop_last() =~= all.take(n));
            assert(next.last() == x.deep_view());
            insert(&mut out, x);
        }
    }
    assert(all.take(all.len() as int) =~= all);
    out
}

/// Puts `x` into `sorted` behind the last value that may stand before it.
fn insert<T: Sortable>(sorted: &mut Vec<T>, x: T)
    ensures
        final(sorted).deep_view() == insert_sorted::<T>(old(sorted).deep_view(), x.deep_view()),
{
    let ghost s = sorted.deep_view();
    let ghost v = x.deep_view();
    let mut at: usize = sorted.len();
    assert(s.take(at as int) =~= s);
    assert(insert_sorted::<T>(s, v) =~= insert_sorted::<T>(s.take(at as int), v) + s.skip(at as int));
    while at > 0 && !sorted[at - 1].may_precede(&x)
        invariant
            at <= sorted@.len(),
            s == sorted.deep_view(),
            v == x.deep_view(),
            insert_sorted::<T>(s, v) == insert_sorted::<T>(s.take(at as int), v) + s.skip(
                at as int,
            ),
        decreases at,
    {
        proof {
            let t = s.take(at as int);
            assert(t.drop_last() =~= s.take(at - 1));
            assert(insert_sorted::<T>(t, v) == insert_sorted::<T>(s.take(at - 1), v).push(
                s[at - 1],
            ));
            assert(insert_sorted::<T>(t, v) + s.skip(at as int) =~= insert_sorted::<T>(
                s.take(at - 1),
                v,
            ) + s.skip(at - 1));
        }
        at -= 1;
    }
    sorted.insert(at, x);
    assert(sorted.deep_view() =~= s.take(at as int).push(v) + s.skip(at as int));
}

impl Sortable for String {
    open spec fn leq(a: Seq<char>, b: Seq<char>) -> bool {
        text_leq(a, b)
    }

    proof fn leq_total(a: Seq<char>, b: Seq<char>) {
        crate::text::lemma_text_total(a, b);
    }

    proof fn leq_transitive(a: Seq<char>, b: Seq<char>, c: Seq<char>) {
        crate::text::lemma_text_transitive(a, b, c);
    }

    fn may_precede(&self, other: &String) -> (r: bool) {
        at_most(self.as_str(), other.as_str())
    }
}

/// A sequence with each run of equal values made one.
pub open spec fn unrepeated<A>(s: Seq<A>) -> Seq<A>
    decreases s.len(),
{
    if s.len() == 0 {
        s
    } else if s.len() > 1 && s[s.len() - 2] == s.last() {
        unrepeated(s.drop_last())
    } else {
        unrepeated(s.drop_last()).push(s.last())
    }
}

/// The texts in order, each once.
pub open spec fn sorted_set(texts: Seq<Seq<char>>) -> Seq<Seq<char>> {
    unrepeated(stable_sort::<String>(texts))
}

/// Whether the texts stand in order and none of them twice.
pub open spec fn strictly_sorted(texts: Seq<Seq<char>>) -> bool {
    forall|i: int, j: int|
        0 <= i < j < texts.len() ==> text_leq(#[trigger] texts[i], #[trigger] texts[j]) && texts[i]
            != texts[j]
}

proof fn lemma_unrepeated_values<A>(s: Seq<A>, x: A)
    ensures
        unrepeated(s).contains(x) <==> s.contains(x),
        s.len() > 0 ==> unrepeated(s).len() > 0 && unrepeated(s).last() == s.last(),
    decreases s.len(),
{
    if s.len() > 0 {
        let front = s.drop_last();
        lemma_unrepeated_values(front, x);
        let r = unrepeated(s);
        if s.contains(x) {
            let k = choose|k: int| 0 <= k < s.len() && s[k] == x;
            if k < front.len() {
                assert(front[k] == x);
                let j = choose|j: int| 0 <= j < unrepeated(front).len() && unrepeated(front)[j] == x;
                assert(r[j] == x);
            } else if s.len() > 1 && s[s.len() - 2] == s.last() {
                assert(front.last() == x);
                assert(r[r.len() - 1] == x);
            } else {
                assert(r[r.len() - 1] == x);
            }
        }
        if r.contains(x) {
            let j = choose|j: int| 0 <= j < r.len() && r[j] == x;
            if j < unrepeated(front).len() {
                assert(unrepeated(front)[j] == x);
                let k = choose|k: int| 0 <= k < front.len() && front[k] == x;
                assert(s[k] == x);
            } else {
                assert(s[s.len() - 1] == x);
            }
        }
    }
}

proof fn lemma_unrepeated_sorted(s: Seq<Seq<char>>)
    requires
        is_sorted::<String>(s),
    ensures
        strictly_sorted(unrepeated(s)),
    decreases s.len(),
{
    if s.len() > 0 {
        let front = s.drop_last();
        assert(is_sorted::<String>(front)) by {
            assert forall|i: int, j: int| 0 <= i <= j < front.len() implies String::leq(
                #[trigger] front[i],
                #[trigger] front[j],
            ) by {
                assert(String::leq(s[i], s[j]));
            }
        }
        lemma_unrepeated_sorted(front);
        let before = unrepeated(front);
        let r = unrepeated(s);
        let x = s.last();
        if !(s.len() > 1 && s[s.len() - 2] == x) {
            assert forall|i: int, j: int| 0 <= i < j < r.len() implies text_leq(
                #[trigger] r[i],
                #[trigger] r[j],
            ) && r[i] != r[j] by {
                if j == before.len() {
                    lemma_unrepeated_values(front, before[i]);
                    assert(before.contains(before[i]));
                    let last = before[before.len() - 1];
                    assert(last == front.last());
                    assert(String::leq(s[s.len() - 2], s[s.len() - 1]));
                    assert(last != x);
                    if i < before.len() - 1 {
                        assert(text_leq(before[i], last) && before[i] != last);
                        crate::text::lemma_text_transitive(before[i], last, x);
                        if before[i] == x {
                            crate::text::lemma_text_antisymmetric(before[i], last);
                        }
                    }
                } else {
                    assert(before[i] == r[i] && before[j] == r[j]);
                }
            }
        }
    }
}

/// The texts in order, each once, are in order, each once, and the same texts.
pub proof fn sorted_sets_are_sorted(texts: Seq<Seq<char>>)
    ensures
        strictly_sorted(sorted_set(texts)),
        forall|x: Seq<char>| #[trigger] sorted_set(texts).contains(x) <==> texts.contains(x),
{
    let sorted = stable_sort::<String>(texts);
    sorting_is_stable::<String>(texts);
    lemma_unrepeated_sorted(sorted);
    assert forall|x: Seq<char>| #[trigger] sorted_set(texts).contains(x) <==> texts.contains(x) by {
        lemma_unrepeated_values(sorted, x);
        if texts.contains(x) {
            lemma_same_values(texts, sorted, x);
        }
        if sorted.contains(x) {
            lemma_same_values(sorted, texts, x);
        }
    }
}

/// The texts in order, each once.
pub fn sort_set(texts: Vec<String>) -> (r: Vec<String>)
    ensures
        r.deep_view() == sorted_set(texts.deep_view()),
{
    let sorted = sort_stable(texts);
    let ghost all = sorted.deep_view();
    let mut out: Vec<String> = Vec::new();
    let mut i: usize = 0;
    assert(out.deep_view() =~= unrepeated(all.take(0)));
    while i < sorted.len()
        invariant
            i <= sorted.len(),
            all == sorted.deep_view(),
            out.deep_view() == unrepeated(all.take(i as int)),
        decreases sorted.len() - i,
    {
        let ghost done = out.deep_view();
        assert(all.take(i + 1).drop_last() =~= all.take(i as int));
        if i == 0 || sorted[i - 1] != sorted[i] {
            out.push(sorted[i].clone());
            assert(out.deep_view() =~= done.push(all[i as int]));
        }
        i += 1;
    }
    assert(all.take(all.len() as int) =~= all);
    out
}

} // verus!
