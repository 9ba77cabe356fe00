//! How texts are taken apart and put together.

use crate::text::{
    contains, cut_at_first, cut_at_last, decimal_of, equals, find, find_from, is_space, join,
    last_piece, lowered, occurs_at, replaced, rfind, split_at_char, split_where, stripped,
    trim_end_where, trim_start_where, trimmed, text_leq, uppered, words_of,
};
use vstd::prelude::*;
use vstd::string::*;

verus! {

/// A separator stands between the pieces of what is before it and those of what is behind it.
pub proof fn a_separator_parts_the_pieces(x: Seq<char>, y: Seq<char>, c: char)
    ensures
        split_at_char(x.push(c) + y, c) == split_at_char(x, c) + split_at_char(y, c),
{
    lemma_parted(x, y, c, equals(c));
}

proof fn lemma_parted(x: Seq<char>, y: Seq<char>, c: char, p: spec_fn(char) -> bool)
    requires
        p(c),
    ensures
        split_where(x.push(c) + y, p) == split_where(x, p) + split_where(y, p),
    decreases y.len(),
{
    let s = x.push(c) + y;
    crate::text::lemma_split_where_len(x, p);
    if y.len() == 0 {
        assert(s =~= x.push(c));
        assert(s.drop_last() =~= x);
        assert(split_where(s, p) =~= split_where(x, p) + split_where(y, p));
    } else {
        let front = y.drop_last();
        lemma_parted(x, front, c, p);
        crate::text::lemma_split_where_len(front, p);
        assert(s.drop_last() =~= x.push(c) + front);
        assert(s.last() == y.last());
        assert(split_where(s, p) =~= split_where(x, p) + split_where(y, p));
    }
}

/// A text without the separator is one piece.
pub proof fn without_a_separator_there_is_one_piece(s: Seq<char>, c: char)
    requires
        forall|i: int| 0 <= i < s.len() ==> #[trigger] s[i] != c,
    ensures
        split_at_char(s, c) == seq![s],
{
    lemma_whole(s, equals(c));
}

proof fn lemma_whole(s: Seq<char>, p: spec_fn(char) -> bool)
    requires
        forall|i: int| 0 <= i < s.len() ==> !p(#[trigger] s[i]),
    ensures
        split_where(s, p) == seq![s],
    decreases s.len(),
{
    if s.len() > 0 {
        let front = s.drop_last();
        assert forall|i: int| 0 <= i < front.len() implies !p(#[trigger] front[i]) by {
            assert(front[i] == s[i]);
        }
        lemma_whole(front, p);
        assert(s.last() == s[s.len() - 1]);
        assert(front.push(s.last()) =~= s);
        assert(split_where(s, p) =~= seq![s]);
    } else {
        assert(s =~= Seq::<char>::empty());
    }
}

/// The words of a text are those before a white space and those behind it.
pub proof fn white_space_parts_the_words(x: Seq<char>, y: Seq<char>, c: char)
    requires
        is_space(c),
    ensures
        words_of(x.push(c) + y) == words_of(x) + words_of(y),
{
    let p = |c: char| is_space(c);
    lemma_parted(x, y, c, p);
    let keeps = |w: Seq<char>| w.len() > 0;
    Seq::filter_distributes_over_add(split_where(x, p), split_where(y, p), keeps);
}

/// A text without white space is one word, and no word where it is empty.
pub proof fn without_white_space_there_is_one_word(s: Seq<char>)
    requires
        forall|i: int| 0 <= i < s.len() ==> !is_space(#[trigger] s[i]),
    ensures
        words_of(s) == if s.len() > 0 {
            seq![s]
        } else {
            Seq::<Seq<char>>::empty()
        },
{
    let p = |c: char| is_space(c);
    lemma_whole(s, p);
    reveal_with_fuel(Seq::filter, 2);
    assert(seq![s].drop_last() =~= Seq::<Seq<char>>::empty());
    if s.len() > 0 {
        assert(words_of(s) =~= seq![s]);
    }
}

/// A text is cut at the first separator in it.
pub proof fn a_text_is_cut_at_the_first_separator(x: Seq<char>, y: Seq<char>, separator: Seq<char>)
    requires
        separator.len() == 1,
        forall|i: int| 0 <= i < x.len() ==> #[trigger] x[i] != separator[0],
    ensures
        cut_at_first(x + separator + y, separator) == Some((x, y)),
{
    a_character_is_found(x, y, separator);
    let s = x + separator + y;
    assert(s.take(x.len() as int) =~= x);
    assert(s.skip((x.len() + 1) as int) =~= y);
}

/// A text is cut at the last separator in it.
pub proof fn a_text_is_cut_at_the_last_separator(x: Seq<char>, y: Seq<char>, separator: Seq<char>)
    requires
        separator.len() == 1,
        forall|i: int| 0 <= i < y.len() ==> #[trigger] y[i] != separator[0],
    ensures
        cut_at_last(x + separator + y, separator) == Some((x, y)),
        last_piece(x + separator + y, separator) == y,
{
    let s = x + separator + y;
    crate::text::lemma_rfind_from(s, separator, s.len() - separator.len());
    assert(s.subrange(x.len() as int, (x.len() + 1) as int) =~= separator);
    assert(occurs_at(s, separator, x.len() as int));
    let at = rfind(s, separator)->Some_0;
    if at > x.len() {
        assert(s.subrange(at, at + 1)[0] == y[at - x.len() - 1]);
    }
    assert(s.take(x.len() as int) =~= x);
    assert(s.skip((x.len() + 1) as int) =~= y);
}

/// What begins with a prefix is left without it.
pub proof fn a_prefix_is_stripped(prefix: Seq<char>, rest: Seq<char>)
    ensures
        stripped(prefix + rest, prefix) == Some(rest),
{
    assert(prefix =~= (prefix + rest).subrange(0, prefix.len() as int));
    assert((prefix + rest).skip(prefix.len() as int) =~= rest);
}

/// A text is what is left of it when it is trimmed, with white space before and behind it; and
/// what is left neither begins nor ends with white space.
pub proof fn trimming_takes_white_space_alone(s: Seq<char>) -> (ends: (Seq<char>, Seq<char>))
    ensures
        s == ends.0 + trimmed(s) + ends.1,
        forall|i: int| 0 <= i < ends.0.len() ==> is_space(#[trigger] ends.0[i]),
        forall|i: int| 0 <= i < ends.1.len() ==> is_space(#[trigger] ends.1[i]),
        trimmed(s).len() > 0 ==> !is_space(trimmed(s)[0]) && !is_space(trimmed(s).last()),
{
    let p = |c: char| is_space(c);
    let t = trim_start_where(s, p);
    let before = lemma_trimmed_start(s, p);
    let behind = lemma_trimmed_end(t, p);
    assert(s =~= before + trimmed(s) + behind);
    if trimmed(s).len() > 0 {
        assert(t[0] == trimmed(s)[0]);
    }
    (before, behind)
}

proof fn lemma_trimmed_start(s: Seq<char>, p: spec_fn(char) -> bool) -> (before: Seq<char>)
    ensures
        s == before + trim_start_where(s, p),
        forall|i: int| 0 <= i < before.len() ==> p(#[trigger] before[i]),
        trim_start_where(s, p).len() > 0 ==> !p(trim_start_where(s, p)[0]),
    decreases s.len(),
{
    if s.len() > 0 && p(s[0]) {
        let rest = lemma_trimmed_start(s.drop_first(), p);
        let before = seq![s[0]] + rest;
        assert(s =~= seq![s[0]] + s.drop_first());
        assert(s.drop_first() == rest + trim_start_where(s.drop_first(), p));
        assert(seq![s[0]] + (rest + trim_start_where(s.drop_first(), p)) =~= before
            + trim_start_where(s.drop_first(), p));
        assert(s =~= before + trim_start_where(s, p));
        before
    } else {
        assert(s =~= Seq::<char>::empty() + s);
        Seq::empty()
    }
}

proof fn lemma_trimmed_end(s: Seq<char>, p: spec_fn(char) -> bool) -> (behind: Seq<char>)
    ensures
        s == trim_end_where(s, p) + behind,
        forall|i: int| 0 <= i < behind.len() ==> p(#[trigger] behind[i]),
        trim_end_where(s, p).len() > 0 ==> !p(trim_end_where(s, p).last()),
    decreases s.len(),
{
    if s.len() > 0 && p(s.last()) {
        let rest = lemma_trimmed_end(s.drop_last(), p);
        let behind = rest.push(s.last());
        assert(s =~= s.drop_last().push(s.last()));
        assert(s.drop_last() == trim_end_where(s.drop_last(), p) + rest);
        assert((trim_end_where(s.drop_last(), p) + rest).push(s.last()) =~= trim_end_where(
            s.drop_last(),
            p,
        ) + behind);
        assert(s =~= trim_end_where(s, p) + behind);
        behind
    } else {
        assert(s =~= s + Seq::<char>::empty());
        Seq::empty()
    }
}

/// What is put in the place of a character is put there wherever it stands, and nowhere else.
pub proof fn each_occurrence_is_replaced(x: Seq<char>, y: Seq<char>, c: char, with: Seq<char>)
    ensures
        replaced(x.push(c) + y, c, with) == replaced(x, c, with) + with + replaced(y, c, with),
    decreases y.len(),
{
    let s = x.push(c) + y;
    if y.len() == 0 {
        assert(s =~= x.push(c));
        assert(s.drop_last() =~= x);
        assert(replaced(s, c, with) =~= replaced(x, c, with) + with + replaced(y, c, with));
    } else {
        each_occurrence_is_replaced(x, y.drop_last(), c, with);
        assert(s.drop_last() =~= x.push(c) + y.drop_last());
        assert(replaced(s, c, with) =~= replaced(x, c, with) + with + replaced(y, c, with));
    }
}

/// A text without the character stays as it is.
pub proof fn what_does_not_occur_is_not_replaced(s: Seq<char>, c: char, with: Seq<char>)
    requires
        forall|i: int| 0 <= i < s.len() ==> #[trigger] s[i] != c,
    ensures
        replaced(s, c, with) == s,
    decreases s.len(),
{
    if s.len() > 0 {
        let front = s.drop_last();
        assert forall|i: int| 0 <= i < front.len() implies #[trigger] front[i] != c by {
            assert(front[i] == s[i]);
        }
        what_does_not_occur_is_not_replaced(front, c, with);
        assert(s.last() == s[s.len() - 1]);
        assert(replaced(s, c, with) =~= s);
    }
}

/// A pattern is to be found where it stands, if its first character does not stand before it.
pub proof fn a_pattern_is_found(x: Seq<char>, y: Seq<char>, pattern: Seq<char>)
    requires
        pattern.len() > 0,
        forall|i: int| 0 <= i < x.len() ==> #[trigger] x[i] != pattern[0],
    ensures
        find(x + pattern + y, pattern) == Some(x.len() as int),
{
    let s = x + pattern + y;
    let n = x.len() as int;
    let m = pattern.len() as int;
    assert(s.subrange(n, n + m) =~= pattern);
    assert forall|j: int| 0 <= j < n implies !occurs_at(s, pattern, j) by {
        if occurs_at(s, pattern, j) {
            assert(s.subrange(j, j + m)[0] == x[j]);
        }
    }
    lemma_found_there(s, pattern, 0, n);
}

proof fn lemma_found_there(s: Seq<char>, pattern: Seq<char>, from: int, n: int)
    requires
        0 <= from <= n,
        occurs_at(s, pattern, n),
        forall|j: int| from <= j < n ==> !occurs_at(s, pattern, j),
    ensures
        find_from(s, pattern, from) == Some(n),
    decreases n - from,
{
    if from < n {
        assert(!occurs_at(s, pattern, from));
        lemma_found_there(s, pattern, from + 1, n);
    }
}

/// One character is to be found where it stands first.
pub proof fn a_character_is_found(x: Seq<char>, y: Seq<char>, pattern: Seq<char>)
    requires
        pattern.len() == 1,
        forall|i: int| 0 <= i < x.len() ==> #[trigger] x[i] != pattern[0],
    ensures
        find(x + pattern + y, pattern) == Some(x.len() as int),
{
    let s = x + pattern + y;
    crate::text::lemma_find_from(s, pattern, 0);
    assert(s.subrange(x.len() as int, (x.len() + 1) as int) =~= pattern);
    assert(occurs_at(s, pattern, x.len() as int));
    let at = find(s, pattern)->Some_0;
    if at < x.len() {
        assert(s.subrange(at, at + 1)[0] == x[at]);
    }
}

/// One character that does not stand in a text is not to be found there.
pub proof fn a_missing_character_is_not_found(s: Seq<char>, pattern: Seq<char>)
    requires
        pattern.len() == 1,
        forall|i: int| 0 <= i < s.len() ==> #[trigger] s[i] != pattern[0],
    ensures
        find(s, pattern) is None,
{
    crate::text::lemma_find_from(s, pattern, 0);
    if let Some(at) = find(s, pattern) {
        assert(s.subrange(at, at + 1)[0] == s[at]);
    }
}

/// The first character at which two texts differ decides their order, and a text comes before those
/// that it begins.
pub proof fn the_first_difference_decides(p: Seq<char>, x: Seq<char>, y: Seq<char>)
    ensures
        x.len() > 0 && y.len() > 0 && x[0] != y[0] ==> (text_leq(p + x, p + y) <==> x[0] < y[0]),
        text_leq(p, p + x),
        x.len() > 0 ==> !text_leq(p + x, p),
    decreases p.len(),
{
    if p.len() == 0 {
        assert(p + x =~= x);
        assert(p + y =~= y);
    } else {
        let rest = p.drop_first();
        the_first_difference_decides(rest, x, y);
        assert((p + x).drop_first() =~= rest + x);
        assert((p + y).drop_first() =~= rest + y);
        assert((p + x)[0] == p[0] && (p + y)[0] == p[0]);
    }
}

/// A number in decimal notation has its last digit behind the notation of the rest.
pub proof fn digits_stand_by_their_value(n: nat, d: nat)
    requires
        d < 10,
    ensures
        decimal_of(d) == seq![(d + 48) as int as char],
        n > 0 ==> decimal_of(10 * n + d) == decimal_of(n).push((d + 48) as int as char),
{
    if n > 0 {
        assert((10 * n + d) / 10 == n);
        assert((10 * n + d) % 10 == d);
    }
}

/// Only ASCII letters change their case.
pub proof fn only_letters_change_case(s: Seq<char>, i: int)
    requires
        0 <= i < s.len(),
    ensures
        lowered(s).len() == s.len(),
        uppered(s).len() == s.len(),
        'A' <= s[i] <= 'Z' ==> lowered(s)[i] as int == s[i] as int + 32,
        'a' <= s[i] <= 'z' ==> uppered(s)[i] as int == s[i] as int - 32,
        !('A' <= s[i] <= 'Z') ==> lowered(s)[i] == s[i],
        !('a' <= s[i] <= 'z') ==> uppered(s)[i] == s[i],
{
}

/// A text that holds another one at a place holds it.
pub proof fn what_stands_in_a_text_is_held(x: Seq<char>, pattern: Seq<char>, y: Seq<char>)
    ensures
        contains(x + pattern + y, pattern),
{
    let s = x + pattern + y;
    assert(s.subrange(x.len() as int, (x.len() + pattern.len()) as int) =~= pattern);
    assert(occurs_at(s, pattern, x.len() as int));
}

/// What is joined of more texts has the next one behind a separator.
pub proof fn joining_puts_separators_between(parts: Seq<Seq<char>>, next: Seq<char>, separator: Seq<char>)
    ensures
        join(parts.push(next), separator) == if parts.len() == 0 {
            next
        } else {
            join(parts, separator) + separator + next
        },
        join(Seq::empty(), separator).len() == 0,
{
    assert(parts.push(next).drop_last() =~= parts);
    reveal_with_fuel(join, 2);
}

/// A relative path stays within its directory where both parts of it do; a segment does, unless it
/// is `..` or holds a backslash.
pub proof fn paths_stay_within_by_their_parts(segment: Seq<char>)
    requires
        segment.len() > 0,
        forall|i: int| 0 <= i < segment.len() ==> #[trigger] segment[i] != '/',
    ensures
        crate::path_safety::is_within(segment) <==> segment != ".."@ && !contains(segment, "\\"@),
        !crate::path_safety::is_within("/"@ + segment),
        !crate::path_safety::is_within(Seq::empty()),
{
    reveal_strlit("/");
    assert("/"@ =~= seq!['/']);
    without_a_separator_there_is_one_piece(segment, '/');
    assert(seq![segment][0] == segment);
    if "/"@.is_prefix_of(segment) {
        assert(segment.subrange(0, "/"@.len() as int)[0] == "/"@[0]);
    }
    let absolute = "/"@ + segment;
    assert("/"@ =~= absolute.subrange(0, "/"@.len() as int));
}

/// A longer path stays within its directory where what is before a slash and what is behind it do.
pub proof fn longer_paths_stay_within_by_their_parts(x: Seq<char>, y: Seq<char>)
    requires
        crate::path_safety::is_within(x),
        crate::path_safety::is_within(y),
    ensures
        !split_at_char(x.push('/') + y, '/').contains(".."@),
{
    a_separator_parts_the_pieces(x, y, '/');
    let a = split_at_char(x, '/');
    let b = split_at_char(y, '/');
    if (a + b).contains(".."@) {
        let k = choose|k: int| 0 <= k < (a + b).len() && (a + b)[k] == ".."@;
        if k < a.len() {
            assert(a[k] == ".."@);
        } else {
            assert(b[k - a.len()] == ".."@);
        }
    }
}

} // verus!
