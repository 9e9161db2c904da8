use license_tool::package::Package;
use license_tool::record::{
    insert_sorted, license_expression, package_to_record, record_place, same_record, Record,
};
use license_tool::order::Place;
use license_tool::reduce::{
    build_records, collect_record_sets, holds_name, pick_name, reduce_names,
};

fn text(s: &str) -> Option<String> {
    Some(s.to_string())
}

fn attributed(name: &str, origin: &str, license: &str, copyright: &str) -> Package {
    Package {
        id: format!("{name} 1.0.0"),
        name: name.to_string(),
        version: "1.0.0".to_string(),
        authors: Vec::new(),
        source: text("registry+https://github.com/rust-lang/crates.io-index"),
        license: text(license),
        license_file: None,
        repository: text(origin),
        homepage: None,
        manifest_path: format!("/src/{name}/Cargo.toml"),
        copyright: text(copyright),
    }
}

fn record(component: &str, origin: &str, license: &str, copyright: &str) -> Record {
    Record {
        component: component.to_string(),
        origin: origin.to_string(),
        license: license.to_string(),
        copyright: copyright.to_string(),
    }
}

fn names(list: &[&str]) -> Vec<String> {
    list.iter().map(|s| s.to_string()).collect()
}

fn components(records: &[Record]) -> Vec<String> {
    records.iter().map(|r| r.component.clone()).collect()
}

#[test]
fn slash_in_license_becomes_or() {
    let p = attributed("a", "https://example.com/a", "MIT/Apache-2.0", "Jane");
    let r = package_to_record(p);
    assert_eq!(r.license, "MIT OR Apache-2.0");
    assert_eq!(r.component, "a");
    assert_eq!(r.origin, "https://example.com/a");
    assert_eq!(r.copyright, "Jane");
}

#[test]
fn license_expression_cases() {
    assert_eq!(license_expression("MIT"), "MIT");
    assert_eq!(license_expression(""), "");
    assert_eq!(license_expression("/"), " OR ");
    assert_eq!(license_expression("MIT/Apache-2.0/ISC"), "MIT OR Apache-2.0 OR ISC");
    assert_eq!(license_expression("MIT OR Apache-2.0"), "MIT OR Apache-2.0");
}

#[test]
fn single_name_is_kept() {
    let key = record("", "https://example.com/other", "MIT", "Jane");
    let out = reduce_names(key, names(&["foo"]));
    assert_eq!(out, vec![record("foo", "https://example.com/other", "MIT", "Jane")]);
}

#[test]
fn name_equal_to_last_segment_wins() {
    let key = record("", "https://github.com/a/foo", "MIT", "Jane");
    let out = reduce_names(key, names(&["foo", "foo-rs"]));
    assert_eq!(out, vec![record("foo", "https://github.com/a/foo", "MIT", "Jane")]);
}

#[test]
fn rust_prefix_is_stripped() {
    let key = record("", "https://github.com/a/rust-foo", "MIT", "Jane");
    let out = reduce_names(key, names(&["foo"]));
    assert_eq!(components(&out), names(&["foo"]));
    let key = record("", "https://github.com/a/rust-foo", "MIT", "Jane");
    let out = reduce_names(key, names(&["foo-derive", "foo"]));
    assert_eq!(components(&out), names(&["foo"]));
}

#[test]
fn rs_suffix_is_stripped() {
    let key = record("", "https://github.com/a/foo-rs", "MIT", "Jane");
    let out = reduce_names(key, names(&["foo-sys", "foo"]));
    assert_eq!(components(&out), names(&["foo"]));
}

#[test]
fn first_rule_that_matches_wins() {
    assert_eq!(
        pick_name(&names(&["rust-foo", "foo"]), "https://github.com/a/rust-foo"),
        text("rust-foo")
    );
    assert_eq!(
        pick_name(&names(&["rust-foo", "foo-rs"]), "https://github.com/a/rust-foo-rs"),
        text("foo-rs")
    );
    assert_eq!(pick_name(&names(&["foo"]), "https://github.com/a/rust-foo-rs"), None);
    assert_eq!(pick_name(&names(&["foo"]), "foo"), None);
    assert_eq!(pick_name(&names(&[""]), "https://github.com/a/"), text(""));
}

#[test]
fn without_preferred_name_every_name_is_kept() {
    let key = record("", "https://github.com/a/workspace", "MIT", "Jane");
    let out = reduce_names(key, names(&["foo", "bar"]));
    assert_eq!(
        out,
        vec![
            record("foo", "https://github.com/a/workspace", "MIT", "Jane"),
            record("bar", "https://github.com/a/workspace", "MIT", "Jane"),
        ]
    );
    let key = record("", "no-slash", "MIT", "Jane");
    assert_eq!(components(&reduce_names(key, names(&["a", "b"]))), names(&["a", "b"]));
}

#[test]
fn no_names_give_no_records() {
    let key = record("", "https://github.com/a/foo", "MIT", "Jane");
    assert!(reduce_names(key, Vec::new()).is_empty());
}

#[test]
fn holds_name_compares_whole_names() {
    let list = names(&["foo", "bar"]);
    assert!(holds_name(&list, "bar"));
    assert!(!holds_name(&list, "ba"));
    assert!(!holds_name(&Vec::new(), ""));
}

#[test]
fn records_are_grouped_by_all_but_the_name() {
    let groups = collect_record_sets(vec![
        record("foo", "https://github.com/a/foo", "MIT", "Jane"),
        record("bar", "https://github.com/a/bar", "MIT", "Jane"),
        record("foo-rs", "https://github.com/a/foo", "MIT", "Jane"),
        record("foo", "https://github.com/a/foo", "MIT", "Jane"),
        record("foo", "https://github.com/a/foo", "ISC", "Jane"),
    ]);
    assert_eq!(groups.len(), 3);
    assert_eq!(groups[0].key, record("", "https://github.com/a/foo", "MIT", "Jane"));
    assert_eq!(groups[0].names, names(&["foo", "foo-rs"]));
    assert_eq!(groups[1].key, record("", "https://github.com/a/bar", "MIT", "Jane"));
    assert_eq!(groups[1].names, names(&["bar"]));
    assert_eq!(groups[2].key, record("", "https://github.com/a/foo", "ISC", "Jane"));
    assert_eq!(groups[2].names, names(&["foo"]));
}

#[test]
fn one_package_gives_one_record_with_its_name() {
    let out = build_records(vec![attributed("foo-rs", "https://github.com/a/foo", "MIT", "Jane")]);
    assert_eq!(out, vec![record("foo-rs", "https://github.com/a/foo", "MIT", "Jane")]);
}

#[test]
fn group_collapses_to_the_repository_name() {
    let out = build_records(vec![
        attributed("foo-rs", "https://github.com/a/foo", "MIT", "Jane"),
        attributed("foo", "https://github.com/a/foo", "MIT", "Jane"),
    ]);
    assert_eq!(out, vec![record("foo", "https://github.com/a/foo", "MIT", "Jane")]);
}

#[test]
fn manifest_is_sorted_and_without_duplicates() {
    let out = build_records(vec![
        attributed("zeta", "https://github.com/a/zeta", "MIT", "Z"),
        attributed("alpha", "https://github.com/a/mono", "MIT/ISC", "A"),
        attributed("beta", "https://github.com/a/mono", "MIT/ISC", "A"),
        attributed("zeta", "https://github.com/a/zeta", "MIT", "Z"),
        attributed("alpha", "https://github.com/a/alpha2", "MIT", "A"),
    ]);
    assert_eq!(
        out,
        vec![
            record("alpha", "https://github.com/a/alpha2", "MIT", "A"),
            record("alpha", "https://github.com/a/mono", "MIT OR ISC", "A"),
            record("beta", "https://github.com/a/mono", "MIT OR ISC", "A"),
            record("zeta", "https://github.com/a/zeta", "MIT", "Z"),
        ]
    );
    for i in 1..out.len() {
        assert_ne!(out[i - 1], out[i]);
    }
}

#[test]
fn manifest_does_not_depend_on_the_order_of_packages() {
    let list = || {
        vec![
            attributed("b", "https://github.com/a/b", "MIT", "B"),
            attributed("a", "https://github.com/a/x", "MIT", "A"),
            attributed("c", "https://github.com/a/x", "MIT", "A"),
            attributed("x-rs", "https://github.com/a/rust-x", "MIT", "X"),
            attributed("x", "https://github.com/a/rust-x", "MIT", "X"),
        ]
    };
    let forward = build_records(list());
    let mut reversed = list();
    reversed.reverse();
    let mut rotated = list();
    rotated.rotate_left(2);
    rotated.push(attributed("b", "https://github.com/a/b", "MIT", "B"));
    assert_eq!(build_records(reversed), forward);
    assert_eq!(build_records(rotated), forward);
    assert_eq!(components(&forward), names(&["a", "b", "c", "x"]));
}

#[test]
fn empty_package_list_gives_empty_manifest() {
    assert!(build_records(Vec::new()).is_empty());
}

#[test]
fn records_are_ordered_field_by_field() {
    let a = record("a", "o", "l", "c");
    assert_eq!(record_place(&a, &record("a", "o", "l", "c")), Place::Same);
    assert_eq!(record_place(&a, &record("b", "a", "a", "a")), Place::Before);
    assert_eq!(record_place(&a, &record("a", "n", "z", "z")), Place::After);
    assert_eq!(record_place(&a, &record("a", "o", "m", "a")), Place::Before);
    assert_eq!(record_place(&a, &record("a", "o", "l", "b")), Place::After);
    assert_eq!(record_place(&a, &record("ab", "", "", "")), Place::Before);
    assert_eq!(record_place(&record("B", "", "", ""), &a), Place::Before);
    assert_eq!(record_place(&record("\u{e9}", "", "", ""), &record("z", "", "", "")), Place::After);
    assert!(same_record(&a, &record("a", "o", "l", "c")));
    assert!(!same_record(&a, &record("a", "o", "l", "")));
}

#[test]
fn order_of_records_is_the_order_of_their_fields() {
    let list = vec![
        record("a", "o", "l", "c"),
        record("a", "o", "l", "d"),
        record("a", "o", "m", ""),
        record("a", "p", "", ""),
        record("ab", "", "", ""),
        record("b", "", "", ""),
        record("\u{e9}", "", "", ""),
        record("\u{1f600}", "", "", ""),
    ];
    for (i, a) in list.iter().enumerate() {
        for (j, b) in list.iter().enumerate() {
            let expected = match a.cmp(b) {
                std::cmp::Ordering::Less => Place::Before,
                std::cmp::Ordering::Equal => Place::Same,
                std::cmp::Ordering::Greater => Place::After,
            };
            assert_eq!(record_place(a, b), expected);
            assert_eq!(i < j, expected == Place::Before);
        }
    }
}

#[test]
fn insert_keeps_list_sorted_and_skips_equal() {
    let mut list: Vec<Record> = Vec::new();
    insert_sorted(&mut list, record("m", "", "", ""));
    insert_sorted(&mut list, record("z", "", "", ""));
    insert_sorted(&mut list, record("a", "", "", ""));
    insert_sorted(&mut list, record("m", "", "", ""));
    insert_sorted(&mut list, record("n", "", "", ""));
    assert_eq!(components(&list), names(&["a", "m", "n", "z"]));
}
