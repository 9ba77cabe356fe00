//! What a dependency specifier asks for.

use crate::cli::{change_lines, enriched, installed_lines, name_and_range, LicenseSource};
use crate::laws::text::{
    a_missing_character_is_not_found, a_prefix_is_stripped, a_text_is_cut_at_the_first_separator,
    a_text_is_cut_at_the_last_separator, white_space_parts_the_words,
    without_white_space_there_is_one_word,
};
use crate::package_json::spec::{
    alternative_of, alternatives_of, asks_for_any, before_hash, is_tag_shaped, leads_to_registry,
    names_git_url, names_path, range_accepts, range_of, req_of, spec_of, RangeErrorView, SpecView,
};
use crate::project::ChangeView;
use crate::registry::ResolvedView;
use crate::sbom::ComponentView;
use crate::text::{
    contains, find, is_space, occurs_at, rfind, split_on, trim_end_where, trim_start_where, trimmed,
};
use crate::version::{
    req_accepts, semver_req, semver_version, version_leq, version_text, VersionView,
};
use vstd::prelude::*;
use vstd::string::*;

verus! {

proof fn lemma_prefix_char(prefix: Seq<char>, s: Seq<char>, k: int)
    requires
        prefix.is_prefix_of(s),
        0 <= k < prefix.len(),
    ensures
        k < s.len(),
        s[k] == prefix[k],
{
    assert(s.subrange(0, prefix.len() as int)[k] == s[k]);
}

/// Whether a text has no white space at its ends.
pub open spec fn is_trim(s: Seq<char>) -> bool {
    s.len() > 0 ==> !is_space(s[0]) && !is_space(s.last())
}

proof fn lemma_trim(s: Seq<char>)
    requires
        is_trim(s),
    ensures
        trimmed(s) == s,
{
    reveal_with_fuel(trim_start_where, 2);
    reveal_with_fuel(trim_end_where, 2);
}

proof fn lemma_no_prefixes(s: Seq<char>)
    requires
        forall|i: int| 0 <= i < s.len() ==> #[trigger] s[i] != ':' && s[i] != '/' && s[i] != '@',
        !"git+"@.is_prefix_of(s),
    ensures
        !"npm:"@.is_prefix_of(s),
        !names_git_url(s),
        !"http://"@.is_prefix_of(s),
        !"https://"@.is_prefix_of(s),
        !names_path(s),
{
    lemma_no_colons(s);
    reveal_strlit("file:");
    reveal_strlit("./");
    reveal_strlit("../");
    reveal_strlit("/");
    reveal_strlit("~/");
    if "file:"@.is_prefix_of(s) {
        lemma_prefix_char("file:"@, s, 4);
    }
    if "./"@.is_prefix_of(s) {
        lemma_prefix_char("./"@, s, 1);
    }
    if "../"@.is_prefix_of(s) {
        lemma_prefix_char("../"@, s, 2);
    }
    if "/"@.is_prefix_of(s) {
        lemma_prefix_char("/"@, s, 0);
    }
    if "~/"@.is_prefix_of(s) {
        lemma_prefix_char("~/"@, s, 1);
    }
}

/// A text without a colon, a slash and an `@`, such as a version, a range or a tag, is one of the
/// registry, as it is written.
pub proof fn a_plain_text_is_of_the_registry(s: Seq<char>)
    requires
        is_trim(s),
        forall|i: int| 0 <= i < s.len() ==> #[trigger] s[i] != ':' && s[i] != '/' && s[i] != '@',
        !"git+"@.is_prefix_of(s),
    ensures
        spec_of(s) == SpecView::Registry(s),
        leads_to_registry(spec_of(s)),
{
    lemma_trim(s);
    lemma_no_prefixes(s);
    reveal_strlit("/");
    reveal_strlit("#");
    let head = before_hash(s);
    crate::text::lemma_find_from(s, "#"@, 0);
    crate::text::lemma_find_from(head, "/"@, 0);
    if contains(head, "/"@) {
        let at = choose|at: int| occurs_at(head, "/"@, at);
        assert(head.subrange(at, at + 1)[0] == head[at]);
        assert("/"@[0] == '/');
        assert(head[at] == s[at]);
    }
}

/// An alias is of the package before its last `@`, by what stands behind that.
pub proof fn an_alias_names_its_package(name: Seq<char>, inner: Seq<char>)
    requires
        name.len() > 0,
        is_trim("npm:"@ + (name + "@"@ + inner)),
        forall|i: int| 0 <= i < inner.len() ==> #[trigger] inner[i] != '@',
    ensures
        spec_of("npm:"@ + (name + "@"@ + inner)) == (SpecView::Alias {
            name,
            spec: Box::new(spec_of(inner)),
        }),
        leads_to_registry(spec_of("npm:"@ + (name + "@"@ + inner))) == leads_to_registry(
            spec_of(inner),
        ),
{
    reveal_strlit("npm:");
    reveal_strlit("@");
    assert("@"@ =~= seq!['@']);
    let rest = name + "@"@ + inner;
    let s = "npm:"@ + rest;
    lemma_trim(s);
    a_prefix_is_stripped("npm:"@, rest);
    assert(s.skip(4) =~= rest);
    a_text_is_cut_at_the_last_separator(name, inner, "@"@);
    crate::text::lemma_rfind_from(rest, "@"@, rest.len() - 1);
    let at = rfind(rest, "@"@)->Some_0;
    assert(rest.take(at) == name);
    assert(at == name.len());
    assert("npm:"@.is_prefix_of(s));
    crate::package_json::spec::lemma_alias_is_shorter(s);
}

/// Whether a text begins as a git source does.
pub open spec fn begins_as_git(s: Seq<char>) -> bool {
    "git+"@.is_prefix_of(s) || "git://"@.is_prefix_of(s) || "git@"@.is_prefix_of(s)
        || "ssh://"@.is_prefix_of(s) || "github:"@.is_prefix_of(s) || "gitlab:"@.is_prefix_of(s)
        || "bitbucket:"@.is_prefix_of(s) || "gist:"@.is_prefix_of(s)
}

/// A git source is one, with what stands behind its first `#` for the commit.
pub proof fn a_git_source_is_one(source: Seq<char>, commit: Seq<char>)
    requires
        begins_as_git(source),
        forall|i: int| 0 <= i < source.len() ==> #[trigger] source[i] != '#',
        is_trim(source),
        is_trim(source + "#"@ + commit),
    ensures
        spec_of(source) == (SpecView::Git { source, committish: None }),
        spec_of(source + "#"@ + commit) == (SpecView::Git { source, committish: Some(commit) }),
        !leads_to_registry(spec_of(source)),
{
    reveal_strlit("#");
    assert("#"@ =~= seq!['#']);
    let s = source + "#"@ + commit;
    lemma_trim(source);
    lemma_trim(s);
    lemma_git_is_no_alias(source);
    lemma_longer_git(source, s);
    lemma_git_is_no_alias(s);
    a_missing_character_is_not_found(source, "#"@);
    a_text_is_cut_at_the_first_separator(source, commit, "#"@);
}

proof fn lemma_longer_git(source: Seq<char>, s: Seq<char>)
    requires
        begins_as_git(source),
        source.is_prefix_of(s) || s.take(source.len() as int) == source,
        s.len() >= source.len(),
    ensures
        begins_as_git(s),
{
    lemma_longer_prefix("git+"@, source, s);
    lemma_longer_prefix("git://"@, source, s);
    lemma_longer_prefix("git@"@, source, s);
    lemma_longer_prefix("ssh://"@, source, s);
    lemma_longer_prefix("github:"@, source, s);
    lemma_longer_prefix("gitlab:"@, source, s);
    lemma_longer_prefix("bitbucket:"@, source, s);
    lemma_longer_prefix("gist:"@, source, s);
}

proof fn lemma_longer_prefix(prefix: Seq<char>, source: Seq<char>, s: Seq<char>)
    requires
        source.is_prefix_of(s) || s.take(source.len() as int) == source,
        s.len() >= source.len(),
    ensures
        prefix.is_prefix_of(source) ==> prefix.is_prefix_of(s),
{
    if prefix.is_prefix_of(source) {
        assert(s.take(source.len() as int) =~= source);
        assert(prefix =~= s.subrange(0, prefix.len() as int)) by {
            assert forall|k: int| 0 <= k < prefix.len() implies prefix[k] == s[k] by {
                assert(source.subrange(0, prefix.len() as int)[k] == source[k]);
                assert(s.take(source.len() as int)[k] == s[k]);
            }
        }
    }
}

proof fn lemma_git_is_no_alias(s: Seq<char>)
    requires
        begins_as_git(s),
    ensures
        !"npm:"@.is_prefix_of(s),
        names_git_url(s),
{
    reveal_strlit("npm:");
    reveal_strlit("git+");
    reveal_strlit("git://");
    reveal_strlit("git@");
    reveal_strlit("ssh://");
    reveal_strlit("github:");
    reveal_strlit("gitlab:");
    reveal_strlit("bitbucket:");
    reveal_strlit("gist:");
    assert("npm:"@[0] == 'n' && "git+"@[0] == 'g' && "git://"@[0] == 'g' && "git@"@[0] == 'g'
        && "ssh://"@[0] == 's' && "github:"@[0] == 'g' && "gitlab:"@[0] == 'g' && "bitbucket:"@[0]
        == 'b' && "gist:"@[0] == 'g');
    if "npm:"@.is_prefix_of(s) {
        lemma_prefix_char("npm:"@, s, 0);
        if "git+"@.is_prefix_of(s) {
            lemma_prefix_char("git+"@, s, 0);
        }
        if "git://"@.is_prefix_of(s) {
            lemma_prefix_char("git://"@, s, 0);
        }
        if "git@"@.is_prefix_of(s) {
            lemma_prefix_char("git@"@, s, 0);
        }
        if "ssh://"@.is_prefix_of(s) {
            lemma_prefix_char("ssh://"@, s, 0);
        }
        if "github:"@.is_prefix_of(s) {
            lemma_prefix_char("github:"@, s, 0);
        }
        if "gitlab:"@.is_prefix_of(s) {
            lemma_prefix_char("gitlab:"@, s, 0);
        }
        if "bitbucket:"@.is_prefix_of(s) {
            lemma_prefix_char("bitbucket:"@, s, 0);
        }
        if "gist:"@.is_prefix_of(s) {
            lemma_prefix_char("gist:"@, s, 0);
        }
    }
}

/// Whether the first character of a text is one with which no alias and no git source begins.
spec fn begins_otherwise(s: Seq<char>) -> bool {
    s.len() > 0 && s[0] != 'n' && s[0] != 'g' && s[0] != 's' && s[0] != 'b'
}

proof fn lemma_begins_otherwise(s: Seq<char>)
    requires
        begins_otherwise(s),
    ensures
        !"npm:"@.is_prefix_of(s),
        !names_git_url(s),
{
    reveal_strlit("npm:");
    reveal_strlit("git+");
    reveal_strlit("git://");
    reveal_strlit("git@");
    reveal_strlit("ssh://");
    reveal_strlit("github:");
    reveal_strlit("gitlab:");
    reveal_strlit("bitbucket:");
    reveal_strlit("gist:");
    assert("npm:"@[0] == 'n' && "git+"@[0] == 'g' && "git://"@[0] == 'g' && "git@"@[0] == 'g'
        && "ssh://"@[0] == 's' && "github:"@[0] == 'g' && "gitlab:"@[0] == 'g' && "bitbucket:"@[0]
        == 'b' && "gist:"@[0] == 'g');
    if "npm:"@.is_prefix_of(s) {
        lemma_prefix_char("npm:"@, s, 0);
    }
    if names_git_url(s) {
        lemma_first_of_git(s);
    }
}

proof fn lemma_first_of_git(s: Seq<char>)
    requires
        names_git_url(s),
    ensures
        s.len() > 0,
        s[0] == 'g' || s[0] == 's' || s[0] == 'b',
{
    reveal_strlit("git+");
    reveal_strlit("git://");
    reveal_strlit("git@");
    reveal_strlit("ssh://");
    reveal_strlit("github:");
    reveal_strlit("gitlab:");
    reveal_strlit("bitbucket:");
    reveal_strlit("gist:");
    if "git+"@.is_prefix_of(s) {
        lemma_prefix_char("git+"@, s, 0);
    } else if "git://"@.is_prefix_of(s) {
        lemma_prefix_char("git://"@, s, 0);
    } else if "git@"@.is_prefix_of(s) {
        lemma_prefix_char("git@"@, s, 0);
    } else if "ssh://"@.is_prefix_of(s) {
        lemma_prefix_char("ssh://"@, s, 0);
    } else if "github:"@.is_prefix_of(s) {
        lemma_prefix_char("github:"@, s, 0);
    } else if "gitlab:"@.is_prefix_of(s) {
        lemma_prefix_char("gitlab:"@, s, 0);
    } else if "bitbucket:"@.is_prefix_of(s) {
        lemma_prefix_char("bitbucket:"@, s, 0);
    } else {
        lemma_prefix_char("gist:"@, s, 0);
    }
}

/// A URL of the web is a tarball.
pub proof fn a_url_is_a_tarball(s: Seq<char>)
    requires
        is_trim(s),
        "https://"@.is_prefix_of(s) || "http://"@.is_prefix_of(s),
    ensures
        spec_of(s) == SpecView::Tarball(s),
        !leads_to_registry(spec_of(s)),
{
    reveal_strlit("https://");
    reveal_strlit("http://");
    assert("https://"@[0] == 'h' && "http://"@[0] == 'h');
    if "https://"@.is_prefix_of(s) {
        lemma_prefix_char("https://"@, s, 0);
    } else {
        lemma_prefix_char("http://"@, s, 0);
    }
    lemma_trim(s);
    lemma_begins_otherwise(s);
}

/// A path is one where it begins as such.
pub proof fn a_path_is_a_path(s: Seq<char>)
    requires
        is_trim(s),
        "file:"@.is_prefix_of(s) || "./"@.is_prefix_of(s) || "../"@.is_prefix_of(s)
            || "/"@.is_prefix_of(s) || "~/"@.is_prefix_of(s),
    ensures
        spec_of(s) == SpecView::Path(s),
        !leads_to_registry(spec_of(s)),
{
    reveal_strlit("file:");
    reveal_strlit("./");
    reveal_strlit("../");
    reveal_strlit("/");
    reveal_strlit("~/");
    reveal_strlit("https://");
    reveal_strlit("http://");
    assert("file:"@[0] == 'f' && "./"@[0] == '.' && "../"@[0] == '.' && "/"@[0] == '/' && "~/"@[0]
        == '~' && "https://"@[0] == 'h' && "http://"@[0] == 'h');
    if "file:"@.is_prefix_of(s) {
        lemma_prefix_char("file:"@, s, 0);
    } else if "./"@.is_prefix_of(s) {
        lemma_prefix_char("./"@, s, 0);
    } else if "../"@.is_prefix_of(s) {
        lemma_prefix_char("../"@, s, 0);
    } else if "/"@.is_prefix_of(s) {
        lemma_prefix_char("/"@, s, 0);
    } else {
        lemma_prefix_char("~/"@, s, 0);
    }
    if "https://"@.is_prefix_of(s) {
        lemma_prefix_char("https://"@, s, 0);
    }
    if "http://"@.is_prefix_of(s) {
        lemma_prefix_char("http://"@, s, 0);
    }
    lemma_trim(s);
    lemma_begins_otherwise(s);
}

/// An owner and a repository with a slash between them are a git source.
pub proof fn an_owner_and_repository_are_a_git_source(owner: Seq<char>, repository: Seq<char>)
    requires
        owner.len() > 0,
        owner[0] != '.',
        owner[0] != '~',
        owner[0] != '/',
        owner[0] != '@',
        is_trim(owner + "/"@ + repository),
        forall|i: int|
            0 <= i < (owner + "/"@ + repository).len() ==> #[trigger] (owner + "/"@
                + repository)[i] != ':' && (owner + "/"@ + repository)[i] != '#' && (owner + "/"@
                + repository)[i] != '@',
        !"git+"@.is_prefix_of(owner + "/"@ + repository),
    ensures
        spec_of(owner + "/"@ + repository) == (SpecView::Git {
            source: owner + "/"@ + repository,
            committish: None,
        }),
{
    let s = owner + "/"@ + repository;
    lemma_trim(s);
    lemma_no_colons(s);
    reveal_strlit("#");
    reveal_strlit("/");
    reveal_strlit("@");
    reveal_strlit("://");
    assert("#"@.len() == 1 && "#"@[0] == '#');
    a_missing_character_is_not_found(s, "#"@);
    crate::laws::text::what_stands_in_a_text_is_held(owner, "/"@, repository);
    if "@"@.is_prefix_of(s) {
        lemma_prefix_char("@"@, s, 0);
    }
    if contains(s, "://"@) {
        let at = choose|at: int| occurs_at(s, "://"@, at);
        assert(s.subrange(at, at + 3)[0] == s[at]);
        assert("://"@[0] == ':');
    }
    assert(s[0] == owner[0]);
    lemma_no_path(s);
}

proof fn lemma_no_path(s: Seq<char>)
    requires
        s.len() > 0,
        s[0] != '.',
        s[0] != '~',
        s[0] != '/',
        forall|i: int| 0 <= i < s.len() ==> #[trigger] s[i] != ':',
    ensures
        !names_path(s),
{
    reveal_strlit("file:");
    reveal_strlit("./");
    reveal_strlit("../");
    reveal_strlit("/");
    reveal_strlit("~/");
    if "file:"@.is_prefix_of(s) {
        lemma_prefix_char("file:"@, s, 4);
    }
    if "./"@.is_prefix_of(s) {
        lemma_prefix_char("./"@, s, 0);
    }
    if "../"@.is_prefix_of(s) {
        lemma_prefix_char("../"@, s, 0);
    }
    if "/"@.is_prefix_of(s) {
        lemma_prefix_char("/"@, s, 0);
    }
    if "~/"@.is_prefix_of(s) {
        lemma_prefix_char("~/"@, s, 0);
    }
}

proof fn lemma_no_colons(s: Seq<char>)
    requires
        forall|i: int| 0 <= i < s.len() ==> #[trigger] s[i] != ':' && s[i] != '@',
        !"git+"@.is_prefix_of(s),
    ensures
        !"npm:"@.is_prefix_of(s),
        !names_git_url(s),
        !"http://"@.is_prefix_of(s),
        !"https://"@.is_prefix_of(s),
{
    reveal_strlit("npm:");
    reveal_strlit("git://");
    reveal_strlit("git@");
    reveal_strlit("ssh://");
    reveal_strlit("github:");
    reveal_strlit("gitlab:");
    reveal_strlit("bitbucket:");
    reveal_strlit("gist:");
    reveal_strlit("http://");
    reveal_strlit("https://");
    if "npm:"@.is_prefix_of(s) {
        lemma_prefix_char("npm:"@, s, 3);
    }
    if "git://"@.is_prefix_of(s) {
        lemma_prefix_char("git://"@, s, 3);
    }
    if "git@"@.is_prefix_of(s) {
        lemma_prefix_char("git@"@, s, 3);
    }
    if "ssh://"@.is_prefix_of(s) {
        lemma_prefix_char("ssh://"@, s, 3);
    }
    if "github:"@.is_prefix_of(s) {
        lemma_prefix_char("github:"@, s, 6);
    }
    if "gitlab:"@.is_prefix_of(s) {
        lemma_prefix_char("gitlab:"@, s, 6);
    }
    if "bitbucket:"@.is_prefix_of(s) {
        lemma_prefix_char("bitbucket:"@, s, 9);
    }
    if "gist:"@.is_prefix_of(s) {
        lemma_prefix_char("gist:"@, s, 4);
    }
    if "http://"@.is_prefix_of(s) {
        lemma_prefix_char("http://"@, s, 4);
    }
    if "https://"@.is_prefix_of(s) {
        lemma_prefix_char("https://"@, s, 5);
    }
}

/// A range accepts what one of its alternatives does.
pub proof fn alternatives_accept_together(
    x: Seq<Seq<char>>,
    y: Seq<Seq<char>>,
    notation: Seq<char>,
    version: VersionView,
)
    ensures
        range_accepts(x + y, version) <==> range_accepts(x, version) || range_accepts(y, version),
        range_accepts(seq![notation], version) <==> req_accepts(notation, version),
        !range_accepts(Seq::empty(), version),
{
    let all = x + y;
    if range_accepts(x, version) {
        let i = choose|i: int| 0 <= i < x.len() && req_accepts(#[trigger] x[i], version);
        assert(all[i] == x[i]);
    }
    if range_accepts(y, version) {
        let i = choose|i: int| 0 <= i < y.len() && req_accepts(#[trigger] y[i], version);
        assert(all[x.len() + i] == y[i]);
    }
    if range_accepts(all, version) {
        let i = choose|i: int| 0 <= i < all.len() && req_accepts(#[trigger] all[i], version);
        if i < x.len() {
            assert(x[i] == all[i]);
        } else {
            assert(y[i - x.len()] == all[i]);
        }
    }
    if req_accepts(notation, version) {
        assert(req_accepts(seq![notation][0], version));
    }
}

/// Nothing, `*`, `x` and `latest` ask for any version.
pub proof fn some_words_ask_for_any(s: Seq<char>)
    requires
        trimmed(s) == "*"@ || trimmed(s) == "x"@ || trimmed(s) == "latest"@ || trimmed(s).len()
            == 0,
    ensures
        range_of(s) == Ok::<Seq<Seq<char>>, RangeErrorView>(seq!["*"@]),
        req_of(s) == Ok::<Seq<char>, Seq<char>>("*"@),
{
    reveal_strlit("");
    if trimmed(s).len() == 0 {
        assert(trimmed(s) =~= ""@);
    }
}

/// Whether a text is one of the words that ask for any version.
pub open spec fn is_any_word(s: Seq<char>) -> bool {
    s.len() == 0 || s == "*"@ || s == "x"@ || s == "latest"@
}

/// What is on both sides of a `||` are alternatives, those of the left before those of the right.
pub proof fn bars_part_the_alternatives(left: Seq<char>, right: Seq<char>)
    requires
        is_trim(left + "||"@ + right),
        forall|i: int| 0 <= i < left.len() ==> #[trigger] left[i] != '|',
        is_trim(right),
        !is_any_word(trimmed(left)),
        !is_any_word(right),
    ensures
        range_of(left + "||"@ + right) == match (range_of(trimmed(left)), range_of(right)) {
            (Ok(x), Ok(y)) => Ok::<Seq<Seq<char>>, RangeErrorView>(x + y),
            (Err(e), _) => Err(e),
            (_, Err(e)) => Err(e),
        },
{
    let s = left + "||"@ + right;
    let inner = trimmed(left);
    lemma_trim(s);
    lemma_trim(right);
    let ends = crate::laws::text::trimming_takes_white_space_alone(left);
    assert(is_trim(inner));
    lemma_trim(inner);
    assert forall|i: int| 0 <= i < inner.len() implies #[trigger] inner[i] != '|' by {
        assert(left[ends.0.len() + i] == inner[i]);
    }
    lemma_any_words(s);
    lemma_any_words(inner);
    lemma_any_words(right);
    lemma_bars_are_no_word(left, right);
    lemma_first_bars(left, right);
    lemma_no_bars(inner);
    lemma_one_alternative(left);
    lemma_one_alternative(inner);
    lemma_alternatives_add_up(seq![left], split_on(right, "||"@));
}

proof fn lemma_any_words(s: Seq<char>)
    ensures
        asks_for_any(s) == is_any_word(s),
{
    reveal_strlit("");
    if s.len() == 0 {
        assert(s =~= ""@);
    }
}

proof fn lemma_bars_are_no_word(left: Seq<char>, right: Seq<char>)
    requires
        right.len() > 0,
    ensures
        !is_any_word(left + "||"@ + right),
{
    reveal_strlit("||");
    reveal_strlit("*");
    reveal_strlit("x");
    reveal_strlit("latest");
    assert("||"@ =~= seq!['|', '|']);
    assert("latest"@ =~= seq!['l', 'a', 't', 'e', 's', 't']);
    let s = left + "||"@ + right;
    assert(s[left.len() as int] == '|');
    assert(s.len() >= 3);
    if s == "latest"@ {
        assert("latest"@[left.len() as int] != '|');
    }
}

proof fn lemma_first_bars(left: Seq<char>, right: Seq<char>)
    requires
        forall|i: int| 0 <= i < left.len() ==> #[trigger] left[i] != '|',
    ensures
        split_on(left + "||"@ + right, "||"@) == seq![left] + split_on(right, "||"@),
{
    reveal_strlit("||");
    assert("||"@.len() == 2 && "||"@[0] == '|');
    let s = left + "||"@ + right;
    let n = left.len() as int;
    crate::laws::text::a_pattern_is_found(left, right, "||"@);
    assert(s.take(n) =~= left);
    assert(s.skip(n + 2) =~= right);
}

proof fn lemma_no_bars(s: Seq<char>)
    requires
        forall|i: int| 0 <= i < s.len() ==> #[trigger] s[i] != '|',
    ensures
        split_on(s, "||"@) == seq![s],
{
    reveal_strlit("||");
    assert("||"@ =~= seq!['|', '|']);
    crate::text::lemma_find_from(s, "||"@, 0);
    if let Some(n) = find(s, "||"@) {
        assert(s.subrange(n, n + 2)[0] == s[n]);
    }
}

proof fn lemma_one_alternative(alt: Seq<char>)
    ensures
        alternatives_of(seq![alt]) == match alternative_of(trimmed(alt)) {
            Ok(notation) => Ok::<Seq<Seq<char>>, RangeErrorView>(seq![notation]),
            Err(e) => Err(e),
        },
{
    reveal_with_fuel(alternatives_of, 2);
    assert(seq![alt].drop_last() =~= Seq::<Seq<char>>::empty());
    if let Ok(notation) = alternative_of(trimmed(alt)) {
        assert(Seq::<Seq<char>>::empty().push(notation) =~= seq![notation]);
    }
}

proof fn lemma_alternatives_add_up(x: Seq<Seq<char>>, y: Seq<Seq<char>>)
    ensures
        alternatives_of(x + y) == match (alternatives_of(x), alternatives_of(y)) {
            (Ok(a), Ok(b)) => Ok::<Seq<Seq<char>>, RangeErrorView>(a + b),
            (Err(e), _) => Err(e),
            (_, Err(e)) => Err(e),
        },
    decreases y.len(),
{
    if y.len() == 0 {
        assert(x + y =~= x);
        if let Ok(a) = alternatives_of(x) {
            assert(a + Seq::<Seq<char>>::empty() =~= a);
        }
    } else {
        lemma_alternatives_add_up(x, y.drop_last());
        assert((x + y).drop_last() =~= x + y.drop_last());
        if let (Ok(a), Ok(b)) = (alternatives_of(x), alternatives_of(y.drop_last())) {
            if let Ok(notation) = alternative_of(trimmed(y.last())) {
                assert((a + b).push(notation) =~= a + b.push(notation));
            }
        }
    }
}

/// Two comparators with white space between them have to hold together.
pub proof fn comparators_hold_together(x: Seq<char>, y: Seq<char>)
    requires
        x.len() > 0,
        y.len() > 0,
        forall|i: int| 0 <= i < x.len() ==> !is_space(#[trigger] x[i]),
        forall|i: int| 0 <= i < y.len() ==> !is_space(#[trigger] y[i]),
        semver_version(x.push(' ') + y) is Err,
    ensures
        alternative_of(x.push(' ') + y) == match semver_req(x + ", "@ + y) {
            Ok(notation) => Ok::<Seq<char>, RangeErrorView>(notation),
            Err(message) => Err(RangeErrorView::Comparators(message)),
        },
{
    reveal_strlit("");
    reveal_strlit("*");
    reveal_strlit("x");
    let alt = x.push(' ') + y;
    assert(alt.len() >= 3);
    assert(""@.len() == 0 && "*"@.len() == 1 && "x"@.len() == 1);
    assert(alt[x.len() as int] == ' ');
    assert(!is_tag_shaped(alt)) by {
        if is_tag_shaped(alt) {
            assert(!crate::package_json::spec::is_alphanumeric(alt[x.len() as int]));
        }
    }
    white_space_parts_the_words(x, y, ' ');
    without_white_space_there_is_one_word(x);
    without_white_space_there_is_one_word(y);
    crate::laws::osv::lemma_join_one(x, ", "@);
    crate::laws::osv::lemma_join_one(y, ", "@);
    crate::laws::osv::lemma_join_concat(seq![x], seq![y], ", "@);
}

/// A package argument is a name, with the range behind its last `@`; the `@` of a scope is part of
/// the name.
pub proof fn a_package_argument_is_taken_apart(name: Seq<char>, range: Seq<char>)
    requires
        name.len() > 0,
        forall|i: int| 0 <= i < range.len() ==> #[trigger] range[i] != '@',
    ensures
        name_and_range(name + "@"@ + range) == (name, Some(range)),
        name_and_range("@"@ + range) == ("@"@ + range, None::<Seq<char>>),
        name_and_range(range) == (range, None::<Seq<char>>),
{
    reveal_strlit("@");
    assert("@"@ =~= seq!['@']);
    a_text_is_cut_at_the_last_separator(name, range, "@"@);
    a_text_is_cut_at_the_last_separator(Seq::empty(), range, "@"@);
    assert(Seq::<char>::empty() + "@"@ + range =~= "@"@ + range);
    crate::text::lemma_rfind_from(range, "@"@, range.len() - 1);
    if let Some(at) = rfind(range, "@"@) {
        assert(range.subrange(at, at + 1)[0] == range[at]);
    }
}

/// The license of an installed package takes the place of the one in the lockfile where the package
/// is asked for it and has one; nothing else of a component changes.
pub proof fn only_the_license_is_filled_in(
    c: ComponentView,
    installed: Option<Seq<char>>,
    source: LicenseSource,
)
    ensures
        enriched(c, installed, source).name == c.name,
        enriched(c, installed, source).version == c.version,
        enriched(c, installed, source).purl == c.purl,
        enriched(c, installed, source).resolved == c.resolved,
        enriched(c, installed, source).integrity == c.integrity,
        source == LicenseSource::Lockfile ==> enriched(c, installed, source).license == c.license,
        source == LicenseSource::Auto ==> enriched(c, installed, source).license == if c.license
            is Some {
            c.license
        } else {
            installed
        },
        source == LicenseSource::Package ==> enriched(c, installed, source).license
            == if installed is Some {
            installed
        } else {
            c.license
        },
{
}

/// Each package and each change has a line of its own.
pub proof fn each_has_its_line(
    installed: Seq<ResolvedView>,
    r: ResolvedView,
    changes: Seq<ChangeView>,
    c: ChangeView,
)
    ensures
        installed_lines(installed.push(r)) == installed_lines(installed) + "  "@ + r.name + "@"@
            + version_text(r.version) + "\n"@,
        change_lines(changes.push(c)) == change_lines(changes) + c.name + ": "@ + c.from + " → "@
            + c.to + "\n"@,
        installed_lines(Seq::empty()).len() == 0,
        change_lines(Seq::empty()).len() == 0,
{
    reveal_strlit("");
    assert(installed.push(r).drop_last() =~= installed);
    assert(changes.push(c).drop_last() =~= changes);
}

/// Of two versions the one with the higher number from the left is the newer.
pub proof fn numbers_decide_from_the_left(a: VersionView, b: VersionView)
    ensures
        a.major < b.major ==> version_leq(a, b) && !version_leq(b, a),
        a.major == b.major && a.minor < b.minor ==> version_leq(a, b) && !version_leq(b, a),
        a.major == b.major && a.minor == b.minor && a.patch < b.patch ==> version_leq(a, b)
            && !version_leq(b, a),
        version_leq(a, a),
{
    crate::version::versions_are_ordered(a, a);
}

} // verus!
