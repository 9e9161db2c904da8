use license_tool::origin::{source_repository, strip_git};
use license_tool::text::{
    chars_of, has_prefix, has_suffix, same_text, split_after_last, split_before_first,
    strip_prefix, strip_suffix, try_strip_suffix,
};

#[test]
fn strip_git_removes_suffix_then_slash() {
    assert_eq!(strip_git("https://example.com/foo.git"), "https://example.com/foo");
    assert_eq!(strip_git("https://example.com/foo/"), "https://example.com/foo");
    assert_eq!(strip_git("https://example.com/foo/.git"), "https://example.com/foo");
}

#[test]
fn strip_git_strips_each_suffix_once() {
    assert_eq!(strip_git("https://example.com/foo.git.git"), "https://example.com/foo.git");
    assert_eq!(strip_git("https://example.com/foo//"), "https://example.com/foo/");
    assert_eq!(strip_git("https://example.com/foo.git/"), "https://example.com/foo.git");
}

#[test]
fn strip_git_leaves_canonical_url_unchanged() {
    let url = "https://github.com/serde-rs/serde";
    assert_eq!(strip_git(url), url);
    assert_eq!(strip_git(strip_git("https://github.com/serde-rs/serde.git")), url);
}

#[test]
fn strip_git_on_short_and_empty_text() {
    assert_eq!(strip_git(""), "");
    assert_eq!(strip_git("/"), "");
    assert_eq!(strip_git(".git"), "");
    assert_eq!(strip_git("git"), "git");
}

#[test]
fn strip_suffix_only_at_the_end() {
    assert_eq!(strip_suffix("a.git.b", ".git"), "a.git.b");
    assert_eq!(strip_suffix("a.git", ".git"), "a");
    assert_eq!(strip_suffix("abc", ""), "abc");
    assert_eq!(strip_suffix("bc", "abc"), "bc");
}

#[test]
fn strip_suffix_counts_characters_not_bytes() {
    assert_eq!(strip_suffix("caf\u{e9}.git", ".git"), "caf\u{e9}");
    assert_eq!(strip_suffix("x\u{e9}", "\u{e9}"), "x");
}

#[test]
fn source_repository_of_git_source() {
    assert_eq!(
        source_repository("git+https://github.com/a/b.git?branch=main#0123abc"),
        Some("https://github.com/a/b.git")
    );
    assert_eq!(
        source_repository("git+https://github.com/a/b#0123abc"),
        Some("https://github.com/a/b#0123abc")
    );
    assert_eq!(source_repository("git+"), Some(""));
    assert_eq!(source_repository("git+?x"), Some(""));
}

#[test]
fn source_repository_of_other_source() {
    assert_eq!(source_repository("registry+https://github.com/rust-lang/crates.io-index"), None);
    assert_eq!(source_repository("git"), None);
    assert_eq!(source_repository(""), None);
}

#[test]
fn chars_are_code_points() {
    assert_eq!(chars_of("a\u{a9}b"), vec!['a', '\u{a9}', 'b']);
    assert!(chars_of("").is_empty());
}

#[test]
fn same_text_compares_all_characters() {
    assert!(same_text("abc", "abc"));
    assert!(same_text("", ""));
    assert!(!same_text("abc", "abd"));
    assert!(!same_text("abc", "ab"));
}

#[test]
fn prefix_and_suffix_tests() {
    assert!(has_prefix(&chars_of("rust-foo"), &chars_of("rust-")));
    assert!(!has_prefix(&chars_of("rus"), &chars_of("rust-")));
    assert!(has_suffix(&chars_of("foo-rs"), &chars_of("-rs")));
    assert!(!has_suffix(&chars_of("foo-rs2"), &chars_of("-rs")));
    assert!(has_suffix(&chars_of("foo"), &chars_of("")));
}

#[test]
fn split_after_last_takes_the_last_segment() {
    assert_eq!(split_after_last("https://github.com/a/foo", '/'), Some("foo"));
    assert_eq!(split_after_last("https://github.com/a/", '/'), Some(""));
    assert_eq!(split_after_last("/", '/'), Some(""));
    assert_eq!(split_after_last("foo", '/'), None);
    assert_eq!(split_after_last("", '/'), None);
}

#[test]
fn split_before_first_stops_at_the_first_occurrence() {
    assert_eq!(split_before_first("a?b?c", '?'), "a");
    assert_eq!(split_before_first("?b", '?'), "");
    assert_eq!(split_before_first("abc", '?'), "abc");
    assert_eq!(split_before_first("", '?'), "");
}

#[test]
fn strip_prefix_and_suffix_tell_when_nothing_matches() {
    assert_eq!(strip_prefix("rust-foo", "rust-"), Some("foo"));
    assert_eq!(strip_prefix("rust-", "rust-"), Some(""));
    assert_eq!(strip_prefix("foo", "rust-"), None);
    assert_eq!(try_strip_suffix("foo-rs", "-rs"), Some("foo"));
    assert_eq!(try_strip_suffix("foo", "-rs"), None);
    assert_eq!(try_strip_suffix("foo", ""), Some("foo"));
}
