//! What is made of an archive, and when a tarball is taken for what was pinned.

use crate::extract::{
    action_entry, listed_dest, plan_of, relative_path, unzipped, untarred, ActionView, EntryKind,
    EntryView, ExtractErrorView, ListedView, PlanView, TarredView, ZippedView,
};
use crate::install::{unpacked_dests, unpacking, verified_unpacking, without_top};
use crate::integrity::{
    base64_reading, base64_text, checked, checked_by_text, first_sha512, pinned_digest, sha512_of,
    IntegrityErrorView,
};
use crate::path_safety::{is_within, PathErrorView};
use crate::text::{is_space, words_of};
use vstd::prelude::*;
use vstd::string::*;

verus! {

/// Whether `rel` is the path of an entry without the prefix, where it has it.
pub open spec fn is_relative(path: Seq<char>, prefix: Option<Seq<char>>, rel: Seq<char>) -> bool {
    match prefix {
        Some(p) => path == p + rel || (!p.is_prefix_of(path) && path == rel),
        None => path == rel,
    }
}

proof fn lemma_relative(path: Seq<char>, prefix: Option<Seq<char>>, rel: Seq<char>)
    requires
        is_relative(path, prefix, rel),
    ensures
        relative_path(path, prefix) == rel,
{
    if let Some(p) = prefix {
        if path == p + rel {
            crate::laws::text::a_prefix_is_stripped(p, rel);
        }
    }
}

/// Each regular file that has a destination is written there, up to the first entry that fails.
pub proof fn each_chosen_file_is_written(
    entries: Seq<ListedView>,
    prefix: Option<Seq<char>>,
    dests: Seq<Option<Seq<char>>>,
    all: bool,
    i: int,
    path: Seq<char>,
    rel: Seq<char>,
    dest: Seq<char>,
)
    requires
        0 <= i < entries.len(),
        plan_of(entries.take(i + 1), prefix, dests, all).failure is None,
        entries[i] matches Ok(e) && e.kind == EntryKind::File && e.path == Ok::<
            Seq<char>,
            Seq<char>,
        >(path),
        is_relative(path, prefix, rel),
        rel.len() > 0,
        rel != "."@,
        dests[i] == Some(dest),
    ensures
        plan_of(entries, prefix, dests, all).actions.contains(
            ActionView::WriteFile { entry: i, path: dest },
        ),
{
    reveal_strlit("");
    assert(""@.len() == 0);
    lemma_relative(path, prefix, rel);
    let part = entries.take(i + 1);
    assert(part.drop_last() =~= entries.take(i));
    assert(part.last() == entries[i]);
    let action = ActionView::WriteFile { entry: i, path: dest };
    let done = plan_of(part, prefix, dests, all);
    assert(done.actions.last() == action);
    assert(done.actions.contains(done.actions.last()));
    lemma_actions_stay(entries, prefix, dests, all, i + 1, action);
}

/// Each directory is made, where all is extracted, up to the first entry that fails.
pub proof fn each_directory_is_made(
    entries: Seq<ListedView>,
    prefix: Option<Seq<char>>,
    dests: Seq<Option<Seq<char>>>,
    i: int,
    path: Seq<char>,
    rel: Seq<char>,
)
    requires
        0 <= i < entries.len(),
        plan_of(entries.take(i + 1), prefix, dests, true).failure is None,
        entries[i] matches Ok(e) && e.kind == EntryKind::Directory && e.path == Ok::<
            Seq<char>,
            Seq<char>,
        >(path),
        is_relative(path, prefix, rel),
        rel.len() > 0,
        rel != "."@,
    ensures
        plan_of(entries, prefix, dests, true).actions.contains(
            ActionView::MakeDirectory { entry: i, path: rel },
        ),
{
    reveal_strlit("");
    assert(""@.len() == 0);
    lemma_relative(path, prefix, rel);
    let part = entries.take(i + 1);
    assert(part.drop_last() =~= entries.take(i));
    assert(part.last() == entries[i]);
    let action = ActionView::MakeDirectory { entry: i, path: rel };
    let done = plan_of(part, prefix, dests, true);
    assert(done.actions.last() == action);
    assert(done.actions.contains(done.actions.last()));
    lemma_actions_stay(entries, prefix, dests, true, i + 1, action);
}

proof fn lemma_actions_stay(
    entries: Seq<ListedView>,
    prefix: Option<Seq<char>>,
    dests: Seq<Option<Seq<char>>>,
    all: bool,
    n: int,
    action: ActionView,
)
    requires
        0 <= n <= entries.len(),
        plan_of(entries.take(n), prefix, dests, all).actions.contains(action),
    ensures
        plan_of(entries, prefix, dests, all).actions.contains(action),
    decreases entries.len() - n,
{
    if n == entries.len() {
        assert(entries.take(n) =~= entries);
    } else {
        let now = entries.take(n);
        let next = entries.take(n + 1);
        assert(next.drop_last() =~= now);
        let a = plan_of(now, prefix, dests, all).actions;
        let b = plan_of(next, prefix, dests, all).actions;
        let k = choose|k: int| 0 <= k < a.len() && a[k] == action;
        assert(b[k] == action);
        lemma_actions_stay(entries, prefix, dests, all, n + 1, action);
    }
}

/// What is written goes to the destination of its entry, and what is made to the path of its
/// entry.
pub proof fn actions_go_where_they_should(
    entries: Seq<ListedView>,
    prefix: Option<Seq<char>>,
    dests: Seq<Option<Seq<char>>>,
    all: bool,
    k: int,
)
    requires
        0 <= k < plan_of(entries, prefix, dests, all).actions.len(),
    ensures
        match plan_of(entries, prefix, dests, all).actions[k] {
            ActionView::WriteFile { entry, path } => 0 <= entry < entries.len() && dests[entry]
                == Some(path) && (entries[entry] matches Ok(e) && e.kind == EntryKind::File),
            ActionView::MakeDirectory { entry, path } => all && 0 <= entry < entries.len() && (
            entries[entry] matches Ok(e) && e.kind == EntryKind::Directory && (e.path matches Ok(
                full,
            ) && is_relative(full, prefix, path))),
        },
    decreases entries.len(),
{
    let front = entries.drop_last();
    let before = plan_of(front, prefix, dests, all);
    if k < before.actions.len() {
        actions_go_where_they_should(front, prefix, dests, all, k);
        let n = action_entry(before.actions[k]);
        assert(entries[n] == front[n]);
    } else {
        assert(entries[entries.len() - 1] == entries.last());
        if let Ok(e) = entries.last() {
            if let Ok(full) = e.path {
                if let Some(p) = prefix {
                    if p.is_prefix_of(full) {
                        assert(full =~= p + full.skip(p.len() as int));
                    }
                }
            }
        }
    }
}

/// Whether an entry keeps an archive from being extracted further: it cannot be read, there are
/// too many before it, it has no path, or it would go out of the destination.
pub open spec fn fails_at(
    entries: Seq<ListedView>,
    prefix: Option<Seq<char>>,
    dests: Seq<Option<Seq<char>>>,
    all: bool,
    i: int,
    e: ExtractErrorView,
) -> bool {
    match entries[i] {
        Err(message) => e == ExtractErrorView::Archive(message),
        Ok(entry) => {
            ||| i >= 200_000 && e == ExtractErrorView::TooManyEntries
            ||| entry.kind != EntryKind::Other && (entry.path matches Err(message) && e
                == ExtractErrorView::Archive(message))
            ||| entry.kind == EntryKind::File && (dests[i] matches Some(d) && !is_within(d) && e
                == ExtractErrorView::Path(PathErrorView::Escapes(d)))
            ||| entry.kind == EntryKind::Directory && all && (entry.path matches Ok(path) && exists|
                rel: Seq<char>,
            | #[trigger]
                is_relative(path, prefix, rel) && !is_within(rel) && e == ExtractErrorView::Path(
                    PathErrorView::Escapes(rel),
                ))
        },
    }
}

/// What keeps an archive from being extracted to its end is so of one of its entries.
pub proof fn an_extraction_fails_for_a_reason(
    entries: Seq<ListedView>,
    prefix: Option<Seq<char>>,
    dests: Seq<Option<Seq<char>>>,
    all: bool,
)
    requires
        plan_of(entries, prefix, dests, all).failure is Some,
    ensures
        exists|i: int|
            0 <= i < entries.len() && #[trigger] fails_at(
                entries,
                prefix,
                dests,
                all,
                i,
                plan_of(entries, prefix, dests, all).failure->Some_0,
            ),
    decreases entries.len(),
{
    let front = entries.drop_last();
    let before = plan_of(front, prefix, dests, all);
    let e = plan_of(entries, prefix, dests, all).failure->Some_0;
    if before.failure is Some {
        an_extraction_fails_for_a_reason(front, prefix, dests, all);
        let i = choose|i: int|
            0 <= i < front.len() && #[trigger] fails_at(front, prefix, dests, all, i, e);
        assert(entries[i] == front[i]);
        assert(fails_at(entries, prefix, dests, all, i, e));
    } else {
        let n = entries.len() - 1;
        if let Ok(entry) = entries.last() {
            if let Ok(full) = entry.path {
                let rel = relative_path(full, prefix);
                if let Some(p) = prefix {
                    if p.is_prefix_of(full) {
                        assert(full =~= p + rel);
                    }
                }
                assert(is_relative(full, prefix, rel));
            }
        }
        assert(fails_at(entries, prefix, dests, all, n, e));
    }
}

/// An archive is extracted to its end where no entry of it fails.
pub proof fn a_sound_archive_is_extracted(
    entries: Seq<ListedView>,
    prefix: Option<Seq<char>>,
    dests: Seq<Option<Seq<char>>>,
    all: bool,
)
    requires
        entries.len() <= 200_000,
        forall|i: int|
            0 <= i < entries.len() ==> (#[trigger] entries[i] matches Ok(e) && e.path is Ok),
        forall|i: int| 0 <= i < entries.len() ==> (#[trigger] dests[i] matches Some(d) ==> is_within(d)),
        !all,
    ensures
        plan_of(entries, prefix, dests, all).failure is None,
    decreases entries.len(),
{
    if entries.len() > 0 {
        let front = entries.drop_last();
        assert forall|i: int| 0 <= i < front.len() implies (#[trigger] front[i] matches Ok(e)
            && e.path is Ok) by {
            assert(front[i] == entries[i]);
        }
        a_sound_archive_is_extracted(front, prefix, dests, all);
        let n = entries.len() - 1;
        assert(entries[n] == entries.last());
        assert(dests[n] matches Some(d) ==> is_within(d));
    }
}

/// A list of files gives for a path what stands beside it first, and nothing for another path.
pub proof fn a_list_gives_what_it_says(
    files: Seq<(Seq<char>, Seq<char>)>,
    rel: Seq<char>,
    k: int,
)
    requires
        0 <= k <= files.len(),
        forall|i: int| 0 <= i < k ==> (#[trigger] files[i]).0 != rel,
        k < files.len() ==> files[k].0 == rel,
    ensures
        listed_dest(files, rel) == if k < files.len() {
            Some(files[k].1)
        } else {
            None
        },
    decreases files.len(),
{
    if k > 0 {
        let rest = files.drop_first();
        assert(files[0].0 != rel);
        assert forall|i: int| 0 <= i < k - 1 implies (#[trigger] rest[i]).0 != rel by {
            assert(rest[i] == files[i + 1]);
        }
        a_list_gives_what_it_says(rest, rel, k - 1);
    }
}

/// Directories and regular files of a tarball are what they are, and everything else is neither;
/// each keeps its path.
pub proof fn tarball_entries_are_what_they_are(entry: TarredView)
    ensures
        match entry {
            Ok((is_dir, is_file, path, _)) => untarred(entry) matches Ok(e) && e.path == path && (
            is_dir ==> e.kind == EntryKind::Directory) && (!is_dir && is_file ==> e.kind
                == EntryKind::File) && (!is_dir && !is_file ==> e.kind == EntryKind::Other),
            Err(message) => untarred(entry) == Err::<EntryView, Seq<char>>(message),
        },
{
}

/// Regular files of a zip archive are extracted under their names, and a name that leads out of the
/// archive is an error.
pub proof fn zip_entries_are_what_they_are(entry: ZippedView, all: bool)
    ensures
        match entry {
            Ok((is_dir, is_file, name)) => unzipped(entry, all) matches Ok(e) && (match name {
                Some(path) => e.path == Ok::<Seq<char>, Seq<char>>(path),
                None => e.path is Err,
            }) && (is_file && !is_dir ==> e.kind == EntryKind::File) && (is_dir && all ==> e.kind
                == EntryKind::Directory) && (is_dir && !all ==> e.kind == EntryKind::Other) && (
            !is_dir && !is_file ==> e.kind == EntryKind::Other),
            Err(message) => unzipped(entry, all) == Err::<EntryView, Seq<char>>(message),
        },
{
}

/// The files of a package's tarball go to their paths without the first segment, whatever that is
/// named; what has no second segment goes nowhere.
pub proof fn the_top_directory_is_left_out(top: Seq<char>, rest: Seq<char>)
    requires
        forall|i: int| 0 <= i < top.len() ==> #[trigger] top[i] != '/',
    ensures
        rest.len() > 0 ==> without_top(top + "/"@ + rest) == Some(rest),
        without_top(top + "/"@) is None,
        without_top(top) is None,
{
    reveal_strlit("/");
    assert("/"@ =~= seq!['/']);
    crate::laws::text::a_text_is_cut_at_the_first_separator(top, rest, "/"@);
    crate::laws::text::a_text_is_cut_at_the_first_separator(top, Seq::empty(), "/"@);
    assert(top + "/"@ + Seq::<char>::empty() =~= top + "/"@);
    crate::laws::text::a_missing_character_is_not_found(top, "/"@);
}

/// Each regular file of a verified tarball is written to its path without the first segment, where
/// the archive is sound.
pub proof fn each_file_of_a_package_is_written(
    entries: Seq<ListedView>,
    i: int,
    top: Seq<char>,
    rest: Seq<char>,
)
    requires
        0 <= i < entries.len(),
        plan_of(entries, None, unpacked_dests(entries), false).failure is None,
        entries[i] matches Ok(e) && e.kind == EntryKind::File && e.path == Ok::<
            Seq<char>,
            Seq<char>,
        >(top + "/"@ + rest),
        forall|j: int| 0 <= j < top.len() ==> #[trigger] top[j] != '/',
        rest.len() > 0,
    ensures
        plan_of(entries, None, unpacked_dests(entries), false).actions.contains(
            ActionView::WriteFile { entry: i, path: rest },
        ),
{
    reveal_strlit("/");
    reveal_strlit(".");
    reveal_strlit("");
    the_top_directory_is_left_out(top, rest);
    let path = top + "/"@ + rest;
    assert(path.len() >= 2);
    assert("."@.len() == 1 && ""@.len() == 0);
    let dests = unpacked_dests(entries);
    assert(dests[i] == Some(rest));
    lemma_no_failure_before(entries, None, dests, false, i + 1);
    each_chosen_file_is_written(entries, None, dests, false, i, path, path, rest);
}

proof fn lemma_no_failure_before(
    entries: Seq<ListedView>,
    prefix: Option<Seq<char>>,
    dests: Seq<Option<Seq<char>>>,
    all: bool,
    n: int,
)
    requires
        0 <= n <= entries.len(),
        plan_of(entries, prefix, dests, all).failure is None,
    ensures
        plan_of(entries.take(n), prefix, dests, all).failure is None,
    decreases entries.len() - n,
{
    if n == entries.len() {
        assert(entries.take(n) =~= entries);
    } else {
        lemma_no_failure_before(entries, prefix, dests, all, n + 1);
        assert(entries.take(n + 1).drop_last() =~= entries.take(n));
    }
}

/// What is pinned by a text of one digest is that digest.
pub proof fn one_digest_is_the_pin(digest: Seq<char>)
    requires
        forall|i: int| 0 <= i < digest.len() ==> !is_space(#[trigger] digest[i]),
    ensures
        pinned_digest("sha512-"@ + digest) == Some(digest),
{
    let word = "sha512-"@ + digest;
    lemma_algorithm_has_no_space();
    assert forall|i: int| 0 <= i < word.len() implies !is_space(#[trigger] word[i]) by {
        if i >= 7 {
            assert(word[i] == digest[i - 7]);
        }
    }
    crate::laws::text::without_white_space_there_is_one_word(word);
    crate::laws::text::a_prefix_is_stripped("sha512-"@, digest);
    assert(seq![word][0] == word);
}

proof fn lemma_algorithm_has_no_space()
    ensures
        "sha512-"@.len() == 7,
        forall|i: int| 0 <= i < 7 ==> !is_space(#[trigger] "sha512-"@[i]),
{
    reveal_strlit("sha512-");
    assert("sha512-"@ =~= seq!['s', 'h', 'a', '5', '1', '2', '-']);
}

/// A digest of another kind before it does not count: what is pinned is the first of sha512.
pub proof fn other_digests_do_not_count(word: Seq<char>, rest: Seq<char>, space: char)
    requires
        forall|i: int| 0 <= i < word.len() ==> !is_space(#[trigger] word[i]),
        !"sha512-"@.is_prefix_of(word),
        is_space(space),
    ensures
        pinned_digest(word.push(space) + rest) == pinned_digest(rest),
        pinned_digest(word) is None,
{
    crate::laws::text::white_space_parts_the_words(word, rest, space);
    crate::laws::text::without_white_space_there_is_one_word(word);
    let ws = words_of(rest);
    if word.len() > 0 {
        let all = seq![word] + ws;
        assert(all[0] == word);
        assert(all.drop_first() =~= ws);
        reveal_with_fuel(first_sha512, 2);
        assert(seq![word].drop_first() =~= Seq::<Seq<char>>::empty());
    } else {
        assert(Seq::<Seq<char>>::empty() + ws =~= ws);
    }
}

/// Bytes pass a pin just where the pin reads as their digest.
pub proof fn bytes_pass_their_own_pin(name: Seq<char>, bytes: Seq<u8>, integrity: Seq<char>)
    ensures
        checked(name, bytes, integrity) is Ok <==> (pinned_digest(integrity) matches Some(digest)
            && base64_reading(digest) == Ok::<Seq<u8>, Seq<char>>(sha512_of(bytes))),
        checked_by_text(name, bytes, integrity) is Ok <==> pinned_digest(integrity) == Some(
            base64_text(sha512_of(bytes)),
        ),
        pinned_digest(integrity) is None ==> checked(name, bytes, integrity) == Err::<
            (),
            IntegrityErrorView,
        >(IntegrityErrorView::Missing { name }),
{
}

/// A tarball whose bytes pass its pin is unpacked, and no other.
pub proof fn a_verified_tarball_is_unpacked(
    name: Seq<char>,
    bytes: Seq<u8>,
    integrity: Seq<char>,
)
    ensures
        (pinned_digest(integrity) matches Some(digest) && base64_reading(digest) == Ok::<
            Seq<u8>,
            Seq<char>,
        >(sha512_of(bytes))) ==> verified_unpacking(name, bytes, Some(integrity)) == Ok::<
            PlanView,
            crate::install::InstallErrorView,
        >(unpacking(bytes)),
        verified_unpacking(name, bytes, None) is Err,
{
    reveal_strlit("");
    assert(""@.len() == 0);
    crate::text::lemma_no_words(""@);
}

} // verus!
