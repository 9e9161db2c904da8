//! Canonical form of a package's origin, the URL of its upstream repository.

use vstd::prelude::*;
use crate::text::{
    before_first, ends_with, split_before_first, strip_prefix, strip_suffix, without_prefix,
    without_suffix,
};

verus! {

/// The characters of `.git`.
pub open spec fn git_suffix() -> Seq<char> {
    seq!['.', 'g', 'i', 't']
}

/// The characters of `/`.
pub open spec fn slash() -> Seq<char> {
    seq!['/']
}

/// The characters of `git+`, the prefix of a source descriptor that names a
/// version-control repository.
pub open spec fn vcs_prefix() -> Seq<char> {
    seq!['g', 'i', 't', '+']
}

/// A URL without a trailing `.git`, and then without a trailing `/`. Each is
/// removed at most once, in that order.
pub open spec fn stripped_git(url: Seq<char>) -> Seq<char> {
    without_suffix(without_suffix(url, git_suffix()), slash())
}

/// A URL is canonical when it ends neither with `.git` nor with `/`.
pub open spec fn is_canonical(url: Seq<char>) -> bool {
    !ends_with(url, git_suffix()) && !ends_with(url, slash())
}

/// The part of `s` before its first `?`: a descriptor without its query.
pub open spec fn without_query(s: Seq<char>) -> Seq<char> {
    before_first(s, '?')
}

/// The repository that a source descriptor names: the text after `git+`, up to
/// the query. `None` when the descriptor names no version-control repository.
pub open spec fn vcs_base(source: Seq<char>) -> Option<Seq<char>> {
    match without_prefix(source, vcs_prefix()) {
        Some(rest) => Some(without_query(rest)),
        None => None,
    }
}

/// The origin of a package that has a source: the declared repository in
/// canonical form; else the repository that the source names, in canonical
/// form; else the homepage as it is; else none.
pub open spec fn origin_of(
    repository: Option<Seq<char>>,
    source: Seq<char>,
    homepage: Option<Seq<char>>,
) -> Option<Seq<char>> {
    match repository {
        Some(url) => Some(stripped_git(url)),
        None => match vcs_base(source) {
            Some(base) => Some(stripped_git(base)),
            None => homepage,
        },
    }
}

/// Removes a trailing `.git`, then a trailing `/`.
pub fn strip_git(s: &str) -> (r: &str)
    ensures
        r@ == stripped_git(s@),
{
    proof {
        reveal_strlit(".git");
        reveal_strlit("/");
        assert(".git"@ =~= git_suffix());
        assert("/"@ =~= slash());
    }
    strip_suffix(strip_suffix(s, ".git"), "/")
}

/// The repository that a source descriptor names, if it names one.
pub fn source_repository(source: &str) -> (r: Option<&str>)
    ensures
        match r {
            Some(base) => vcs_base(source@) == Some(base@),
            None => vcs_base(source@) is None,
        },
{
    proof {
        reveal_strlit("git+");
        assert("git+"@ =~= vcs_prefix());
    }
    match strip_prefix(source, "git+") {
        Some(rest) => Some(split_before_first(rest, '?')),
        None => None,
    }
}

/// A canonical URL is left as it is.
pub proof fn lemma_canonical_is_fixed(url: Seq<char>)
    requires
        is_canonical(url),
    ensures
        stripped_git(url) == url,
{
}

} // verus!
