use license_tool::copyright::{
    copyright_locations, fallback_copyright, find_notice, keep_notice, lookup_copyright,
    lookup_step, Lookup, PatternError,
};
use license_tool::package::Package;

fn text(s: &str) -> Option<String> {
    Some(s.to_string())
}

fn package(license_file: Option<&str>, authors: &[&str]) -> Package {
    Package {
        id: "foo 1.0.0".to_string(),
        name: "foo".to_string(),
        version: "1.0.0".to_string(),
        authors: authors.iter().map(|s| s.to_string()).collect(),
        source: None,
        license: None,
        license_file: license_file.map(|s| s.to_string()),
        repository: None,
        homepage: None,
        manifest_path: "/src/foo/Cargo.toml".to_string(),
        copyright: None,
    }
}

fn read(file: &str) -> Lookup {
    Lookup::Read(file.to_string())
}

fn read_if_file(file: &str) -> Lookup {
    Lookup::ReadIfFile(file.to_string())
}

fn done(holder: &str) -> Lookup {
    Lookup::Done(holder.to_string())
}

#[test]
fn notice_is_found_in_last_line() {
    assert_eq!(
        lookup_copyright("MIT License\n\nCopyright (c) 2019 Jane Doe"),
        Ok(text("Copyright (c) 2019 Jane Doe"))
    );
    assert_eq!(
        lookup_copyright("copyright 2001-2005, present by Foo"),
        Ok(text("copyright 2001-2005, present by Foo"))
    );
    assert_eq!(lookup_copyright("see COPYRIGHT \u{a9} Foo"), Ok(text("COPYRIGHT \u{a9} Foo")));
}

#[test]
fn text_without_notice_gives_none() {
    assert_eq!(lookup_copyright(""), Ok(None));
    assert_eq!(lookup_copyright("Permission is hereby granted"), Ok(None));
    assert_eq!(lookup_copyright("copyrighted work"), Ok(None));
}

#[test]
fn boilerplate_is_not_a_notice() {
    assert_eq!(lookup_copyright("as stated in the copyright notice"), Ok(None));
    assert_eq!(lookup_copyright("the Copyright holder"), Ok(None));
    assert_eq!(lookup_copyright("Copyright [yyyy] [name of copyright owner]"), Ok(None));
}

#[test]
fn search_gives_the_first_match() {
    assert_eq!(find_notice("b+", "^x", "abbbcbb"), Ok(text("bbb")));
    assert_eq!(find_notice("b+", "^x", "ac"), Ok(None));
    assert_eq!(find_notice("", "^x", "ac"), Ok(text("")));
}

#[test]
fn search_drops_a_match_that_is_boilerplate() {
    assert_eq!(find_notice("b+", "^bbb$", "abbbc"), Ok(None));
    assert_eq!(find_notice("b+", "^bb$", "abbbc"), Ok(text("bbb")));
}

#[test]
fn pattern_that_does_not_compile_is_an_error() {
    assert_eq!(find_notice("(", "x", "text"), Err(PatternError));
    assert_eq!(find_notice("b+", "(", "abbbc"), Err(PatternError));
    assert_eq!(find_notice("b+", "(", "ac"), Ok(None));
}

#[test]
fn found_notice_stands_unless_boilerplate() {
    assert_eq!(keep_notice("Copyright Foo".to_string(), false), text("Copyright Foo"));
    assert_eq!(keep_notice("Copyright Foo".to_string(), true), None);
}

#[test]
fn locations_are_searched_in_fixed_order() {
    let list = copyright_locations();
    assert_eq!(
        list,
        vec![
            "license", "LICENSE", "license.md", "LICENSE.md", "LICENSE.txt", "License.txt",
            "license.txt", "LICENSE-APACHE", "LICENSE-MIT", "COPYING", "NOTICE", "README",
            "README.md", "README.mdown", "README.markdown", "COPYRIGHT", "COPYRIGHT.txt",
        ]
    );
}

#[test]
fn fallback_joins_authors() {
    let authors = vec!["Jane <jane@example.com>".to_string(), "Joe".to_string(), "Ann".to_string()];
    assert_eq!(fallback_copyright("foo", &authors), "Jane <jane@example.com>, Joe, Ann");
    assert_eq!(fallback_copyright("foo", &vec!["Jane".to_string()]), "Jane");
}

#[test]
fn fallback_without_authors_names_the_package() {
    assert_eq!(fallback_copyright("foo", &Vec::new()), "The foo Authors");
}

#[test]
fn declared_license_file_is_read_first() {
    let p = package(Some("LICENSE-CUSTOM"), &[]);
    assert_eq!(lookup_step(&p, 0, None), read("LICENSE-CUSTOM"));
    assert_eq!(lookup_step(&p, 1, None), read_if_file("license"));
    assert_eq!(lookup_step(&p, 17, None), read_if_file("COPYRIGHT.txt"));
    assert_eq!(lookup_step(&p, 18, None), done("The foo Authors"));
}

#[test]
fn usual_locations_are_probed_without_license_file() {
    let p = package(None, &["Jane", "Joe"]);
    assert_eq!(lookup_step(&p, 0, None), read_if_file("license"));
    assert_eq!(lookup_step(&p, 9, None), read_if_file("COPYING"));
    assert_eq!(lookup_step(&p, 16, None), read_if_file("COPYRIGHT.txt"));
    assert_eq!(lookup_step(&p, 17, None), done("Jane, Joe"));
    assert_eq!(lookup_step(&p, usize::MAX, None), done("Jane, Joe"));
}

#[test]
fn found_notice_ends_the_search() {
    let p = package(Some("LICENSE-CUSTOM"), &["Jane"]);
    assert_eq!(lookup_step(&p, 1, text("Copyright Foo")), done("Copyright Foo"));
    assert_eq!(lookup_step(&p, 30, text("Copyright Foo")), done("Copyright Foo"));
}

#[test]
fn holder_is_recorded_in_the_package() {
    let mut p = package(None, &["Jane"]);
    p.set_copyright("Copyright Foo".to_string());
    assert_eq!(p.copyright, text("Copyright Foo"));
    assert_eq!(p.name, "foo");
    assert_eq!(p.authors, vec!["Jane".to_string()]);
}
