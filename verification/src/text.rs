//! Text: what the rest of the library needs of strings, each operation stated
//! over the sequence of characters that a string holds.

use vstd::prelude::*;
use vstd::string::*;

verus! {

/// `String::push` appends one character.
pub assume_specification[ String::push ](s: &mut String, c: char)
    ensures
        final(s)@ == old(s)@.push(c),
;

/// How the `Debug` output of a string reads: in quotation marks, with what has to be
/// escaped in escapes.
pub uninterp spec fn quoted(s: Seq<char>) -> Seq<char>;

/// The `Debug` output of a string, by `std::format!`. It depends on the string alone.
#[verifier::external_body]
pub(crate) fn quote(s: &str) -> (r: String)
    ensures
        r@ == quoted(s@),
{
    format!("{s:?}")
}

/// The characters of `s`.
pub fn chars_of(s: &str) -> (r: Vec<char>)
    ensures
        r@ == s@,
{
    let mut out: Vec<char> = Vec::new();
    for c in it: s.chars()
        invariant
            out@ =~= it.seq().take(it.index() as int),
            it.seq() == s@,
    {
        out.push(c);
    }
    out
}

/// The string that holds `chars`.
pub fn text_of(chars: &[char]) -> (r: String)
    ensures
        r@ == chars@,
{
    let mut out = String::new();
    let mut i: usize = 0;
    while i < chars.len()
        invariant
            i <= chars.len(),
            out@ =~= chars@.take(i as int),
        decreases chars.len() - i,
    {
        out.push(chars[i]);
        i += 1;
    }
    out
}

/// The string that holds the characters of `chars` from `from` up to `to`.
pub fn text_between(chars: &[char], from: usize, to: usize) -> (r: String)
    requires
        from <= to <= chars.len(),
    ensures
        r@ == chars@.subrange(from as int, to as int),
{
    let mut out = String::new();
    let mut i: usize = from;
    while i < to
        invariant
            from <= i <= to <= chars.len(),
            out@ =~= chars@.subrange(from as int, i as int),
        decreases to - i,
    {
        out.push(chars[i]);
        i += 1;
    }
    out
}

/// How many bytes `s` has in UTF-8.
pub fn byte_len(s: &str) -> (r: usize)
    ensures
        r == vstd::utf8::encode_utf8(s@).len(),
{
    s.as_bytes().len()
}

/// The same text again, where there is one.
pub fn copy_opt(s: &Option<String>) -> (r: Option<String>)
    ensures
        r.deep_view() == s.deep_view(),
{
    match s {
        Some(t) => Some(t.clone()),
        None => None,
    }
}

/// The same texts again.
pub fn copy_texts(texts: &Vec<String>) -> (r: Vec<String>)
    ensures
        r.deep_view() == texts.deep_view(),
{
    let mut out: Vec<String> = Vec::new();
    let mut i: usize = 0;
    while i < texts.len()
        invariant
            i <= texts.len(),
            out.deep_view() =~= texts.deep_view().take(i as int),
        decreases texts.len() - i,
    {
        let ghost done = out.deep_view();
        out.push(texts[i].clone());
        assert(out.deep_view() =~= done.push(texts@[i as int]@));
        i += 1;
    }
    assert(out.deep_view() =~= texts.deep_view());
    out
}

/// Whether two strings hold the same characters.
pub fn same(a: &str, b: &str) -> (r: bool)
    ensures
        r == (a@ == b@),
{
    let x = a.to_owned();
    let y = b.to_owned();
    x == y
}

/// `a` followed by `b`.
pub fn joined(a: &str, b: &str) -> (r: String)
    ensures
        r@ == a@ + b@,
{
    let mut out = a.to_owned();
    out.append(b);
    out
}

/// `a`, `b` and `c`, one after the other.
pub fn joined3(a: &str, b: &str, c: &str) -> (r: String)
    ensures
        r@ == a@ + b@ + c@,
{
    let mut out = a.to_owned();
    out.append(b);
    out.append(c);
    out
}

/// Whether `pattern` stands in `s` at index `at`.
pub open spec fn occurs_at(s: Seq<char>, pattern: Seq<char>, at: int) -> bool {
    &&& 0 <= at
    &&& at + pattern.len() <= s.len()
    &&& s.subrange(at, at + pattern.len()) == pattern
}

/// Whether `pattern` stands anywhere in `s`.
pub open spec fn contains(s: Seq<char>, pattern: Seq<char>) -> bool {
    exists|at: int| occurs_at(s, pattern, at)
}

/// The first index from `from` on at which `pattern` stands in `s`.
pub open spec fn find_from(s: Seq<char>, pattern: Seq<char>, from: int) -> Option<int>
    decreases s.len() + 1 - from,
{
    if from < 0 || from + pattern.len() > s.len() {
        None
    } else if occurs_at(s, pattern, from) {
        Some(from)
    } else {
        find_from(s, pattern, from + 1)
    }
}

/// The first index at which `pattern` stands in `s`.
pub open spec fn find(s: Seq<char>, pattern: Seq<char>) -> Option<int> {
    find_from(s, pattern, 0)
}

/// The last index at or before `from` at which `pattern` stands in `s`.
pub open spec fn rfind_from(s: Seq<char>, pattern: Seq<char>, from: int) -> Option<int>
    decreases from + 1,
{
    if from < 0 {
        None
    } else if occurs_at(s, pattern, from) {
        Some(from)
    } else {
        rfind_from(s, pattern, from - 1)
    }
}

/// The last index at which `pattern` stands in `s`.
pub open spec fn rfind(s: Seq<char>, pattern: Seq<char>) -> Option<int> {
    rfind_from(s, pattern, s.len() - pattern.len())
}

/// What `find_from` finds is an occurrence and the first one; where it finds
/// nothing there is none.
pub proof fn lemma_find_from(s: Seq<char>, pattern: Seq<char>, from: int)
    requires
        0 <= from,
    ensures
        match find_from(s, pattern, from) {
            Some(at) => from <= at && occurs_at(s, pattern, at) && forall|j: int|
                from <= j < at ==> !occurs_at(s, pattern, j),
            None => forall|j: int| from <= j ==> !occurs_at(s, pattern, j),
        },
    decreases s.len() + 1 - from,
{
    if from + pattern.len() <= s.len() && !occurs_at(s, pattern, from) {
        lemma_find_from(s, pattern, from + 1);
    }
}

/// What `rfind_from` finds is an occurrence and the last one; where it finds
/// nothing there is none.
pub proof fn lemma_rfind_from(s: Seq<char>, pattern: Seq<char>, from: int)
    ensures
        match rfind_from(s, pattern, from) {
            Some(at) => at <= from && occurs_at(s, pattern, at) && forall|j: int|
                at < j <= from ==> !occurs_at(s, pattern, j),
            None => forall|j: int| j <= from ==> !occurs_at(s, pattern, j),
        },
    decreases from + 1,
{
    if from >= 0 && !occurs_at(s, pattern, from) {
        lemma_rfind_from(s, pattern, from - 1);
    }
}

/// Whether `pattern` stands in `s` at index `at`.
fn matches_at(s: &[char], pattern: &[char], at: usize) -> (r: bool)
    requires
        at + pattern.len() <= s.len(),
    ensures
        r == occurs_at(s@, pattern@, at as int),
{
    let mut i: usize = 0;
    while i < pattern.len()
        invariant
            i <= pattern.len(),
            at + pattern.len() <= s.len(),
            forall|j: int| 0 <= j < i ==> s@[at + j] == pattern@[j],
        decreases pattern.len() - i,
    {
        if s[at + i] != pattern[i] {
            assert(s@.subrange(at as int, at + pattern@.len())[i as int] != pattern@[i as int]);
            return false;
        }
        i += 1;
    }
    assert(s@.subrange(at as int, at + pattern@.len()) =~= pattern@);
    true
}

/// The first index at which `pattern` stands in `s`.
pub fn find_in(s: &[char], pattern: &[char]) -> (r: Option<usize>)
    ensures
        match r {
            Some(at) => find(s@, pattern@) == Some(at as int) && at + pattern@.len() <= s@.len(),
            None => find(s@, pattern@) is None,
        },
{
    let mut i: usize = 0;
    while i < s.len() && pattern.len() <= s.len() - i
        invariant
            i <= s.len(),
            find(s@, pattern@) == find_from(s@, pattern@, i as int),
        decreases s.len() - i,
    {
        if matches_at(s, pattern, i) {
            return Some(i);
        }
        i += 1;
    }
    if i == s.len() && pattern.len() == 0 {
        assert(s@.subrange(i as int, i as int) =~= pattern@);
        return Some(i);
    }
    None
}

/// The last index at which `pattern` stands in `s`.
pub fn rfind_in(s: &[char], pattern: &[char]) -> (r: Option<usize>)
    ensures
        match r {
            Some(at) => rfind(s@, pattern@) == Some(at as int) && at + pattern@.len() <= s@.len(),
            None => rfind(s@, pattern@) is None,
        },
{
    if s.len() < pattern.len() {
        return None;
    }
    let mut i: usize = s.len() - pattern.len();
    loop
        invariant
            i + pattern.len() <= s.len(),
            rfind(s@, pattern@) == rfind_from(s@, pattern@, i as int),
        decreases i,
    {
        if matches_at(s, pattern, i) {
            return Some(i);
        }
        if i == 0 {
            assert(rfind_from(s@, pattern@, -1) is None);
            return None;
        }
        i -= 1;
    }
}

/// Whether `s` begins with `prefix`.
pub fn starts_with(s: &str, prefix: &str) -> (r: bool)
    ensures
        r == prefix@.is_prefix_of(s@),
{
    let chars = chars_of(s);
    let pattern = chars_of(prefix);
    if chars.len() < pattern.len() {
        return false;
    }
    matches_at(&chars, &pattern, 0)
}

/// Whether `s` ends with `suffix`.
pub fn ends_with(s: &str, suffix: &str) -> (r: bool)
    ensures
        r == suffix@.is_suffix_of(s@),
{
    let chars = chars_of(s);
    let pattern = chars_of(suffix);
    if chars.len() < pattern.len() {
        return false;
    }
    matches_at(&chars, &pattern, chars.len() - pattern.len())
}

/// What follows `prefix` in `s`, where `s` begins with it.
pub open spec fn stripped(s: Seq<char>, prefix: Seq<char>) -> Option<Seq<char>> {
    if prefix.is_prefix_of(s) {
        Some(s.skip(prefix.len() as int))
    } else {
        None
    }
}

/// What follows `prefix` in `s`, where `s` begins with it.
pub fn strip_prefix(s: &str, prefix: &str) -> (r: Option<String>)
    ensures
        r.deep_view() == stripped(s@, prefix@),
{
    if starts_with(s, prefix) {
        let chars = chars_of(s);
        let pattern = chars_of(prefix);
        let rest = text_between(&chars, pattern.len(), chars.len());
        assert(rest@ =~= s@.skip(prefix@.len() as int));
        Some(rest)
    } else {
        None
    }
}

/// Whether `pattern` stands anywhere in `s`.
pub fn holds(s: &str, pattern: &str) -> (r: bool)
    ensures
        r == contains(s@, pattern@),
{
    let chars = chars_of(s);
    let wanted = chars_of(pattern);
    proof {
        lemma_find_from(s@, pattern@, 0);
    }
    match find_in(&chars, &wanted) {
        Some(at) => true,
        None => false,
    }
}

/// What stands before and after the first `separator` in `s`.
pub open spec fn cut_at_first(s: Seq<char>, separator: Seq<char>) -> Option<(Seq<char>, Seq<char>)> {
    match find(s, separator) {
        Some(at) => Some((s.take(at), s.skip(at + separator.len()))),
        None => None,
    }
}

/// What stands before and after the last `separator` in `s`.
pub open spec fn cut_at_last(s: Seq<char>, separator: Seq<char>) -> Option<(Seq<char>, Seq<char>)> {
    match rfind(s, separator) {
        Some(at) => Some((s.take(at), s.skip(at + separator.len()))),
        None => None,
    }
}

/// What stands before and after the first `separator` in `s`.
pub fn split_once(s: &str, separator: &str) -> (r: Option<(String, String)>)
    ensures
        r.deep_view() == cut_at_first(s@, separator@),
{
    let chars = chars_of(s);
    let wanted = chars_of(separator);
    match find_in(&chars, &wanted) {
        Some(at) => {
            let before = text_between(&chars, 0, at);
            let end: usize = chars.len();
            let after = text_between(&chars, at + wanted.len(), end);
            assert(before@ =~= s@.take(at as int));
            assert(after@ =~= s@.skip(at + separator@.len()));
            Some((before, after))
        },
        None => None,
    }
}

/// What stands before and after the last `separator` in `s`.
pub fn rsplit_once(s: &str, separator: &str) -> (r: Option<(String, String)>)
    ensures
        r.deep_view() == cut_at_last(s@, separator@),
{
    let chars = chars_of(s);
    let wanted = chars_of(separator);
    match rfind_in(&chars, &wanted) {
        Some(at) => {
            let before = text_between(&chars, 0, at);
            let end: usize = chars.len();
            let after = text_between(&chars, at + wanted.len(), end);
            assert(before@ =~= s@.take(at as int));
            assert(after@ =~= s@.skip(at + separator@.len()));
            Some((before, after))
        },
        None => None,
    }
}

/// The pieces of `s` between the characters of which `separates` holds: such a
/// character ends the piece before it, every other one belongs to the last piece.
pub open spec fn split_where(s: Seq<char>, separates: spec_fn(char) -> bool) -> Seq<Seq<char>>
    decreases s.len(),
{
    if s.len() == 0 {
        seq![Seq::<char>::empty()]
    } else {
        let before = split_where(s.drop_last(), separates);
        if separates(s.last()) {
            before.push(Seq::<char>::empty())
        } else {
            before.drop_last().push(before.last().push(s.last()))
        }
    }
}

/// Holds of the character `c` and of no other.
pub open spec fn equals(c: char) -> spec_fn(char) -> bool {
    |x: char| x == c
}

/// The pieces of `s` between the occurrences of `separator`.
pub open spec fn split_at_char(s: Seq<char>, separator: char) -> Seq<Seq<char>> {
    split_where(s, equals(separator))
}

/// There is always at least one piece.
pub proof fn lemma_split_where_len(s: Seq<char>, separates: spec_fn(char) -> bool)
    ensures
        split_where(s, separates).len() >= 1,
    decreases s.len(),
{
    if s.len() > 0 {
        lemma_split_where_len(s.drop_last(), separates);
    }
}

/// The pieces of `s` between the occurrences of `separator`.
pub fn split_char(s: &str, separator: char) -> (r: Vec<String>)
    ensures
        r.deep_view() == split_at_char(s@, separator),
        r@.len() >= 1,
{
    let chars = chars_of(s);
    let ghost separates = equals(separator);
    let mut pieces: Vec<String> = Vec::new();
    let mut piece = String::new();
    let mut i: usize = 0;
    assert(pieces.deep_view().push(piece@) =~= split_where(s@.take(0), separates));
    while i < chars.len()
        invariant
            i <= chars.len(),
            chars@ == s@,
            separates == equals(separator),
            pieces.deep_view().push(piece@) == split_where(s@.take(i as int), separates),
        decreases chars.len() - i,
    {
        let c = chars[i];
        let ghost done = pieces.deep_view();
        let ghost current = piece@;
        proof {
            assert(s@.take(i + 1).drop_last() =~= s@.take(i as int));
            assert(done.push(current).drop_last() =~= done);
        }
        if c == separator {
            pieces.push(piece);
            piece = String::new();
            assert(pieces.deep_view() =~= done.push(current));
        } else {
            piece.push(c);
            assert(pieces.deep_view() =~= done);
        }
        i += 1;
    }
    let ghost done = pieces.deep_view();
    let ghost last = piece@;
    pieces.push(piece);
    assert(pieces.deep_view() =~= done.push(last));
    assert(s@.take(s@.len() as int) =~= s@);
    pieces
}

/// The pieces of `s` between the occurrences of `separator`, from the front.
pub open spec fn split_on(s: Seq<char>, separator: Seq<char>) -> Seq<Seq<char>>
    decreases s.len(),
{
    if separator.len() == 0 {
        seq![s]
    } else {
        match find(s, separator) {
            Some(at) => {
                proof {
                    lemma_find_from(s, separator, 0);
                }
                seq![s.take(at)] + split_on(s.skip(at + separator.len()), separator)
            },
            None => seq![s],
        }
    }
}

/// The pieces of `s` between the occurrences of `separator`, from the front.
pub fn split_text(s: &str, separator: &str) -> (r: Vec<String>)
    requires
        separator@.len() > 0,
    ensures
        r.deep_view() == split_on(s@, separator@),
{
    let mut pieces: Vec<String> = Vec::new();
    let mut rest: String = s.to_owned();
    loop
        invariant
            separator@.len() > 0,
            pieces.deep_view() + split_on(rest@, separator@) == split_on(s@, separator@),
        decreases rest@.len(),
    {
        let ghost done = pieces.deep_view();
        let ghost whole = rest@;
        proof {
            lemma_find_from(rest@, separator@, 0);
        }
        match split_once(rest.as_str(), separator) {
            Some((before, after)) => {
                assert(split_on(whole, separator@) == seq![before@] + split_on(after@, separator@));
                let ghost first = before@;
                pieces.push(before);
                rest = after;
                assert(pieces.deep_view() =~= done.push(first));
                assert(pieces.deep_view() + split_on(rest@, separator@) =~= done + split_on(
                    whole,
                    separator@,
                ));
            },
            None => {
                assert(split_on(whole, separator@) == seq![whole]);
                pieces.push(rest);
                assert(pieces.deep_view() =~= done + seq![whole]);
                return pieces;
            },
        }
    }
}

/// The characters that Unicode calls white space.
pub open spec fn is_space(c: char) -> bool {
    let n = c as int;
    ||| 0x9 <= n <= 0xd
    ||| n == 0x20
    ||| n == 0x85
    ||| n == 0xa0
    ||| n == 0x1680
    ||| 0x2000 <= n <= 0x200a
    ||| n == 0x2028
    ||| n == 0x2029
    ||| n == 0x202f
    ||| n == 0x205f
    ||| n == 0x3000
}

/// Whether `c` is white space.
pub fn space(c: char) -> (r: bool)
    ensures
        r == is_space(c),
{
    let n: u32 = c as u32;
    (0x9 <= n && n <= 0xd) || n == 0x20 || n == 0x85 || n == 0xa0 || n == 0x1680 || (0x2000 <= n
        && n <= 0x200a) || n == 0x2028 || n == 0x2029 || n == 0x202f || n == 0x205f || n == 0x3000
}

/// `s` without the characters at its start of which `drops` holds.
pub open spec fn trim_start_where(s: Seq<char>, drops: spec_fn(char) -> bool) -> Seq<char>
    decreases s.len(),
{
    if s.len() > 0 && drops(s[0]) {
        trim_start_where(s.drop_first(), drops)
    } else {
        s
    }
}

/// `s` without the characters at its end of which `drops` holds.
pub open spec fn trim_end_where(s: Seq<char>, drops: spec_fn(char) -> bool) -> Seq<char>
    decreases s.len(),
{
    if s.len() > 0 && drops(s.last()) {
        trim_end_where(s.drop_last(), drops)
    } else {
        s
    }
}

/// `s` without the white space at its two ends.
pub open spec fn trimmed(s: Seq<char>) -> Seq<char> {
    trim_end_where(trim_start_where(s, |c: char| is_space(c)), |c: char| is_space(c))
}

proof fn lemma_trim_start_len(s: Seq<char>, drops: spec_fn(char) -> bool)
    ensures
        trim_start_where(s, drops).len() <= s.len(),
    decreases s.len(),
{
    if s.len() > 0 && drops(s[0]) {
        lemma_trim_start_len(s.drop_first(), drops);
    }
}

proof fn lemma_trim_end_len(s: Seq<char>, drops: spec_fn(char) -> bool)
    ensures
        trim_end_where(s, drops).len() <= s.len(),
    decreases s.len(),
{
    if s.len() > 0 && drops(s.last()) {
        lemma_trim_end_len(s.drop_last(), drops);
    }
}

/// Trimming makes no text longer.
pub proof fn lemma_trimmed_len(s: Seq<char>)
    ensures
        trimmed(s).len() <= s.len(),
{
    lemma_trim_start_len(s, |c: char| is_space(c));
    lemma_trim_end_len(trim_start_where(s, |c: char| is_space(c)), |c: char| is_space(c));
}

/// A text that holds no white space stays as it is when it is trimmed.
pub proof fn lemma_trimmed_as_is(s: Seq<char>)
    requires
        forall|i: int| 0 <= i < s.len() ==> !is_space(#[trigger] s[i]),
    ensures
        trimmed(s) == s,
{
}

/// `s` without the occurrences of `c` at its start.
pub open spec fn trimmed_start(s: Seq<char>, c: char) -> Seq<char> {
    trim_start_where(s, equals(c))
}

/// `s` without the occurrences of `c` at its end.
pub open spec fn trimmed_end(s: Seq<char>, c: char) -> Seq<char> {
    trim_end_where(s, equals(c))
}

/// `s` without the white space at its two ends.
pub fn trim(s: &str) -> (r: String)
    ensures
        r@ == trimmed(s@),
{
    let chars = chars_of(s);
    let ghost drops = |c: char| is_space(c);
    let mut from: usize = 0;
    assert(s@.skip(0) =~= s@);
    while from < chars.len() && space(chars[from])
        invariant
            from <= chars.len(),
            chars@ == s@,
            drops == (|c: char| is_space(c)),
            trim_start_where(s@.skip(from as int), drops) == trim_start_where(s@, drops),
        decreases chars.len() - from,
    {
        assert(s@.skip(from as int).drop_first() =~= s@.skip(from + 1));
        from += 1;
    }
    let ghost rest = s@.skip(from as int);
    let mut to: usize = chars.len();
    assert(s@.subrange(from as int, to as int) =~= rest);
    while from < to && space(chars[to - 1])
        invariant
            from <= to <= chars.len(),
            chars@ == s@,
            drops == (|c: char| is_space(c)),
            trim_end_where(s@.subrange(from as int, to as int), drops) == trim_end_where(
                rest,
                drops,
            ),
        decreases to - from,
    {
        assert(s@.subrange(from as int, to as int).drop_last() =~= s@.subrange(
            from as int,
            to - 1,
        ));
        to -= 1;
    }
    text_between(&chars, from, to)
}

/// `s` without the occurrences of `c` at its start.
pub fn trim_start(s: &str, c: char) -> (r: String)
    ensures
        r@ == trimmed_start(s@, c),
{
    let chars = chars_of(s);
    let ghost drops = equals(c);
    let mut from: usize = 0;
    assert(s@.skip(0) =~= s@);
    while from < chars.len() && chars[from] == c
        invariant
            from <= chars.len(),
            chars@ == s@,
            drops == equals(c),
            trim_start_where(s@.skip(from as int), drops) == trim_start_where(s@, drops),
        decreases chars.len() - from,
    {
        assert(s@.skip(from as int).drop_first() =~= s@.skip(from + 1));
        from += 1;
    }
    let out = text_between(&chars, from, chars.len());
    assert(out@ =~= s@.skip(from as int));
    out
}

/// `s` without the occurrences of `c` at its end.
pub fn trim_end(s: &str, c: char) -> (r: String)
    ensures
        r@ == trimmed_end(s@, c),
{
    let chars = chars_of(s);
    let ghost drops = equals(c);
    let mut to: usize = chars.len();
    assert(s@.take(to as int) =~= s@);
    while 0 < to && chars[to - 1] == c
        invariant
            to <= chars.len(),
            chars@ == s@,
            drops == equals(c),
            trim_end_where(s@.take(to as int), drops) == trim_end_where(s@, drops),
        decreases to,
    {
        assert(s@.take(to as int).drop_last() =~= s@.take(to - 1));
        to -= 1;
    }
    let out = text_between(&chars, 0, to);
    assert(out@ =~= s@.take(to as int));
    out
}

/// The words of `s`: its pieces between white space that are not empty.
pub open spec fn words_of(s: Seq<char>) -> Seq<Seq<char>> {
    split_where(s, |c: char| is_space(c)).filter(|w: Seq<char>| w.len() > 0)
}

/// The words of `s`: its pieces between white space that are not empty.
pub fn words(s: &str) -> (r: Vec<String>)
    ensures
        r.deep_view() == words_of(s@),
{
    let chars = chars_of(s);
    let ghost separates = |c: char| is_space(c);
    let ghost keeps = |w: Seq<char>| w.len() > 0;
    let ghost mut done: Seq<Seq<char>> = Seq::empty();
    let mut out: Vec<String> = Vec::new();
    let mut piece = String::new();
    let mut i: usize = 0;
    proof {
        reveal(Seq::filter);
        assert(done.push(piece@) =~= split_where(s@.take(0), separates));
        assert(out.deep_view() =~= done.filter(keeps));
    }
    while i < chars.len()
        invariant
            i <= chars.len(),
            chars@ == s@,
            separates == (|c: char| is_space(c)),
            keeps == (|w: Seq<char>| w.len() > 0),
            done.push(piece@) == split_where(s@.take(i as int), separates),
            out.deep_view() == done.filter(keeps),
        decreases chars.len() - i,
    {
        let c = chars[i];
        let ghost current = piece@;
        let ghost kept = out.deep_view();
        proof {
            reveal(Seq::filter);
            assert(s@.take(i + 1).drop_last() =~= s@.take(i as int));
            assert(done.push(current).drop_last() =~= done);
        }
        if space(c) {
            if piece.unicode_len() > 0 {
                out.push(piece);
                assert(out.deep_view() =~= kept.push(current));
            }
            piece = String::new();
            proof {
                done = done.push(current);
            }
        } else {
            piece.push(c);
        }
        i += 1;
    }
    let ghost current = piece@;
    let ghost kept = out.deep_view();
    if piece.unicode_len() > 0 {
        out.push(piece);
        assert(out.deep_view() =~= kept.push(current));
    }
    proof {
        reveal(Seq::filter);
        assert(s@.take(s@.len() as int) =~= s@);
        assert(done.push(current).drop_last() =~= done);
    }
    out
}

/// The empty text has no words.
pub proof fn lemma_no_words(s: Seq<char>)
    requires
        s.len() == 0,
    ensures
        words_of(s).len() == 0,
{
    reveal(Seq::filter);
    let keeps = |w: Seq<char>| w.len() > 0;
    let pieces = split_where(s, |c: char| is_space(c));
    assert(pieces.drop_last().filter(keeps).len() == 0);
}

/// What stands in `s` behind the last `separator`, or all of `s` where there is none.
pub open spec fn last_piece(s: Seq<char>, separator: Seq<char>) -> Seq<char> {
    match cut_at_last(s, separator) {
        Some((_, after)) => after,
        None => s,
    }
}

/// What stands in `s` behind the last `separator`, or all of `s` where there is none.
pub fn after_last(s: &str, separator: &str) -> (r: String)
    ensures
        r@ == last_piece(s@, separator@),
{
    match rsplit_once(s, separator) {
        Some((_, after)) => after,
        None => s.to_owned(),
    }
}

/// The texts of `parts` with `separator` between them.
pub open spec fn join(parts: Seq<Seq<char>>, separator: Seq<char>) -> Seq<char>
    decreases parts.len(),
{
    if parts.len() == 0 {
        Seq::empty()
    } else if parts.len() == 1 {
        parts[0]
    } else {
        join(parts.drop_last(), separator) + separator + parts.last()
    }
}

/// The texts of `parts` with `separator` between them.
pub fn join_texts(parts: &Vec<String>, separator: &str) -> (r: String)
    ensures
        r@ == join(parts.deep_view(), separator@),
{
    let mut out = String::new();
    let mut i: usize = 0;
    assert(out@ =~= Seq::<char>::empty());
    while i < parts.len()
        invariant
            i <= parts.len(),
            out@ == join(parts.deep_view().take(i as int), separator@),
        decreases parts.len() - i,
    {
        let ghost before = out@;
        if i > 0 {
            out.append(separator);
        }
        out.append(parts[i].as_str());
        proof {
            let next = parts.deep_view().take(i + 1);
            assert(next.drop_last() =~= parts.deep_view().take(i as int));
            if i == 0 {
                assert(out@ =~= next[0]);
            }
        }
        i += 1;
    }
    assert(parts.deep_view().take(parts@.len() as int) =~= parts.deep_view());
    out
}

/// The lower-case form of an ASCII letter; every other character as it is.
pub open spec fn lower(c: char) -> char {
    if 'A' <= c <= 'Z' {
        ((c as int) + 32) as char
    } else {
        c
    }
}

/// The upper-case form of an ASCII letter; every other character as it is.
pub open spec fn upper(c: char) -> char {
    if 'a' <= c <= 'z' {
        ((c as int) - 32) as char
    } else {
        c
    }
}

/// `s` with its ASCII letters in lower case.
pub open spec fn lowered(s: Seq<char>) -> Seq<char> {
    s.map_values(|c: char| lower(c))
}

/// `s` with its ASCII letters in upper case.
pub open spec fn uppered(s: Seq<char>) -> Seq<char> {
    s.map_values(|c: char| upper(c))
}

/// `s` with its ASCII letters in lower case.
pub fn ascii_lower(s: &str) -> (r: String)
    ensures
        r@ == lowered(s@),
{
    let chars = chars_of(s);
    let mut out = String::new();
    let mut i: usize = 0;
    while i < chars.len()
        invariant
            i <= chars.len(),
            chars@ == s@,
            out@ =~= lowered(s@.take(i as int)),
        decreases chars.len() - i,
    {
        let c = chars[i];
        if 'A' <= c && c <= 'Z' {
            out.push(((c as u8) + 32) as char);
        } else {
            out.push(c);
        }
        i += 1;
    }
    assert(s@.take(s@.len() as int) =~= s@);
    out
}

/// `s` with its ASCII letters in upper case.
pub fn ascii_upper(s: &str) -> (r: String)
    ensures
        r@ == uppered(s@),
{
    let chars = chars_of(s);
    let mut out = String::new();
    let mut i: usize = 0;
    while i < chars.len()
        invariant
            i <= chars.len(),
            chars@ == s@,
            out@ =~= uppered(s@.take(i as int)),
        decreases chars.len() - i,
    {
        let c = chars[i];
        if 'a' <= c && c <= 'z' {
            out.push(((c as u8) - 32) as char);
        } else {
            out.push(c);
        }
        i += 1;
    }
    assert(s@.take(s@.len() as int) =~= s@);
    out
}

/// The digit of value `d`, in decimal and hexadecimal notation.
pub open spec fn digit(d: nat) -> char {
    if d < 10 {
        ((d + 48) as int) as char
    } else {
        ((d + 87) as int) as char
    }
}

/// The decimal notation of `n`, with no leading zero.
pub open spec fn decimal_of(n: nat) -> Seq<char>
    decreases n,
{
    if n < 10 {
        seq![digit(n)]
    } else {
        decimal_of(n / 10).push(digit(n % 10))
    }
}

/// A number in decimal notation begins with a digit.
pub proof fn lemma_decimal(n: nat)
    ensures
        decimal_of(n).len() > 0,
        '0' <= decimal_of(n)[0] <= '9',
    decreases n,
{
    if n >= 10 {
        lemma_decimal(n / 10);
    }
}

/// The digit of value `d`, in decimal and hexadecimal notation.
pub fn digit_char(d: u8) -> (r: char)
    requires
        d < 16,
    ensures
        r == digit(d as nat),
{
    if d < 10 {
        (d + 48) as char
    } else {
        (d + 87) as char
    }
}

/// The decimal notation of `n`.
pub fn decimal(n: u64) -> (r: String)
    ensures
        r@ == decimal_of(n as nat),
    decreases n,
{
    if n < 10 {
        let mut out = String::new();
        out.push(digit_char(n as u8));
        assert(out@ =~= seq![digit(n as nat)]);
        out
    } else {
        let mut out = decimal(n / 10);
        out.push(digit_char((n % 10) as u8));
        out
    }
}

/// The order of strings: the first character at which they differ decides, and
/// a string comes before those that it begins.
pub open spec fn text_leq(a: Seq<char>, b: Seq<char>) -> bool
    decreases a.len(),
{
    if a.len() == 0 {
        true
    } else if b.len() == 0 {
        false
    } else if a[0] == b[0] {
        text_leq(a.drop_first(), b.drop_first())
    } else {
        a[0] < b[0]
    }
}

/// The order of strings is total.
pub proof fn lemma_text_total(a: Seq<char>, b: Seq<char>)
    ensures
        text_leq(a, b) || text_leq(b, a),
    decreases a.len(),
{
    if a.len() > 0 && b.len() > 0 && a[0] == b[0] {
        lemma_text_total(a.drop_first(), b.drop_first());
    }
}

/// The order of strings is transitive.
pub proof fn lemma_text_transitive(a: Seq<char>, b: Seq<char>, c: Seq<char>)
    requires
        text_leq(a, b),
        text_leq(b, c),
    ensures
        text_leq(a, c),
    decreases a.len(),
{
    if a.len() > 0 && b.len() > 0 && c.len() > 0 && a[0] == b[0] && b[0] == c[0] {
        lemma_text_transitive(a.drop_first(), b.drop_first(), c.drop_first());
    }
}

/// Strings that come before each other are the same.
#[verifier::spinoff_prover]
pub proof fn lemma_text_antisymmetric(a: Seq<char>, b: Seq<char>)
    requires
        text_leq(a, b),
        text_leq(b, a),
    ensures
        a == b,
    decreases a.len(),
{
    if a.len() > 0 && b.len() > 0 {
        let front = a.drop_first();
        let other = b.drop_first();
        assert(a[0] == b[0]);
        lemma_text_antisymmetric(front, other);
        assert forall|i: int| 0 <= i < a.len() implies a[i] == b[i] by {
            if i > 0 {
                assert(a[i] == front[i - 1]);
                assert(b[i] == other[i - 1]);
            }
        }
        assert(a.len() == b.len());
    }
    assert(a =~= b);
}

/// The same text before two strings leaves their order as it is.
pub proof fn lemma_text_prefixed(prefix: Seq<char>, a: Seq<char>, b: Seq<char>)
    ensures
        text_leq(prefix + a, prefix + b) == text_leq(a, b),
    decreases prefix.len(),
{
    if prefix.len() == 0 {
        assert(prefix + a =~= a);
        assert(prefix + b =~= b);
    } else {
        lemma_text_prefixed(prefix.drop_first(), a, b);
        assert((prefix + a).drop_first() =~= prefix.drop_first() + a);
        assert((prefix + b).drop_first() =~= prefix.drop_first() + b);
    }
}

/// Whether `a` comes before `b` or is the same.
pub fn at_most(a: &str, b: &str) -> (r: bool)
    ensures
        r == text_leq(a@, b@),
{
    let x = chars_of(a);
    let y = chars_of(b);
    let mut i: usize = 0;
    assert(a@.skip(0) =~= a@);
    assert(b@.skip(0) =~= b@);
    while i < x.len() && i < y.len()
        invariant
            i <= x.len(),
            i <= y.len(),
            x@ == a@,
            y@ == b@,
            text_leq(a@, b@) == text_leq(a@.skip(i as int), b@.skip(i as int)),
        decreases x.len() - i,
    {
        if x[i] != y[i] {
            return x[i] < y[i];
        }
        assert(a@.skip(i as int).drop_first() =~= a@.skip(i + 1));
        assert(b@.skip(i as int).drop_first() =~= b@.skip(i + 1));
        i += 1;
    }
    i == x.len()
}

/// `s` with `with` in the place of every `c`.
pub open spec fn replaced(s: Seq<char>, c: char, with: Seq<char>) -> Seq<char>
    decreases s.len(),
{
    if s.len() == 0 {
        s
    } else if s.last() == c {
        replaced(s.drop_last(), c, with) + with
    } else {
        replaced(s.drop_last(), c, with).push(s.last())
    }
}

/// `s` with `with` in the place of every `c`.
pub fn replace_char(s: &str, c: char, with: &str) -> (r: String)
    ensures
        r@ == replaced(s@, c, with@),
{
    let chars = chars_of(s);
    let mut out = String::new();
    let mut i: usize = 0;
    while i < chars.len()
        invariant
            i <= chars.len(),
            chars@ == s@,
            out@ =~= replaced(s@.take(i as int), c, with@),
        decreases chars.len() - i,
    {
        assert(s@.take(i + 1).drop_last() =~= s@.take(i as int));
        if chars[i] == c {
            out.append(with);
        } else {
            out.push(chars[i]);
        }
        i += 1;
    }
    assert(s@.take(s@.len() as int) =~= s@);
    out
}

/// Whether one of the texts is `s`.
pub fn any_is(texts: &Vec<String>, s: &str) -> (r: bool)
    ensures
        r == texts.deep_view().contains(s@),
{
    let mut i: usize = 0;
    while i < texts.len()
        invariant
            i <= texts.len(),
            forall|j: int| 0 <= j < i ==> texts.deep_view()[j] != s@,
        decreases texts.len() - i,
    {
        if same(texts[i].as_str(), s) {
            assert(texts.deep_view()[i as int] == s@);
            return true;
        }
        i += 1;
    }
    false
}

/// A separator at the start of `s` cuts an empty piece off and leaves the others.
pub proof fn lemma_split_leading(s: Seq<char>, separates: spec_fn(char) -> bool)
    requires
        s.len() > 0,
        separates(s[0]),
    ensures
        split_where(s, separates) == seq![Seq::<char>::empty()] + split_where(
            s.drop_first(),
            separates,
        ),
    decreases s.len(),
{
    lemma_split_where_len(s.drop_last(), separates);
    lemma_split_where_len(s.drop_first(), separates);
    if s.len() == 1 {
        assert(s.drop_last() =~= Seq::<char>::empty());
        assert(s.drop_first() =~= Seq::<char>::empty());
        assert(split_where(s, separates) =~= seq![Seq::<char>::empty(), Seq::<char>::empty()]);
    } else {
        lemma_split_leading(s.drop_last(), separates);
        assert(s.drop_last().drop_first() =~= s.drop_first().drop_last());
        let inner = split_where(s.drop_first().drop_last(), separates);
        lemma_split_where_len(s.drop_first().drop_last(), separates);
        assert(s.drop_first().last() == s.last());
        assert(split_where(s, separates) =~= seq![Seq::<char>::empty()] + split_where(
            s.drop_first(),
            separates,
        ));
    }
}

/// What is left when separators at the start are dropped has no new pieces.
pub proof fn lemma_split_trimmed_start(s: Seq<char>, c: char, piece: Seq<char>)
    requires
        split_at_char(trimmed_start(s, c), c).contains(piece),
    ensures
        split_at_char(s, c).contains(piece),
    decreases s.len(),
{
    if s.len() > 0 && s[0] == c {
        lemma_split_trimmed_start(s.drop_first(), c, piece);
        lemma_split_leading(s, equals(c));
        let rest = split_at_char(s.drop_first(), c);
        let k = choose|k: int| 0 <= k < rest.len() && rest[k] == piece;
        assert(split_at_char(s, c)[k + 1] == piece);
    }
}

/// What is left does not begin with what was dropped.
pub proof fn lemma_trimmed_start_first(s: Seq<char>, c: char)
    ensures
        trimmed_start(s, c).len() > 0 ==> trimmed_start(s, c)[0] != c,
    decreases s.len(),
{
    if s.len() > 0 && s[0] == c {
        lemma_trimmed_start_first(s.drop_first(), c);
    }
}

} // verus!
